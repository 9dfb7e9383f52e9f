//! What a command asks for: the search expression that its terms make, the
//! scoring policy, the directory to change to, and how the command ends.

use crate::score::{ScoredRow, Scorer};
use vstd::prelude::*;
use vstd::string::StringExecFns;

verus! {

/// Has the character a meaning of its own in a regular expression?
pub open spec fn is_meta(c: char) -> bool {
    c == '\\' || c == '.' || c == '+' || c == '*' || c == '?' || c == '(' || c == ')' || c == '|'
        || c == '[' || c == ']' || c == '{' || c == '}' || c == '^' || c == '$' || c == '#' || c
        == '&' || c == '-' || c == '~'
}

/// The text with a backslash before every character that has a meaning of
/// its own in a regular expression.
pub open spec fn escaped(text: Seq<char>) -> Seq<char>
    decreases text.len(),
{
    if text.len() == 0 {
        Seq::empty()
    } else if is_meta(text.last()) {
        escaped(text.drop_last()).push('\\').push(text.last())
    } else {
        escaped(text.drop_last()).push(text.last())
    }
}

/// Escapes a text with `regex::escape`, which puts a backslash before each
/// of the meta characters `\ . + * ? ( ) | [ ] { } ^ $ # & - ~` and leaves all
/// other characters as they are.
#[verifier::external_body]
fn escape(text: &str) -> (r: String)
    ensures
        r@ == escaped(text@),
{
    regex::escape(text)
}

/// Is the character white space, as Unicode defines it?
pub uninterp spec fn white_space(c: char) -> bool;

/// Tests a character with `char::is_whitespace`, which holds of the
/// characters with the Unicode property `White_Space`.
#[verifier::external_body]
fn is_whitespace(c: char) -> (r: bool)
    ensures
        r == white_space(c),
{
    c.is_whitespace()
}

/// The expression so far with one more term: terms are joined by `.*`, so
/// that anything may stand between them.
pub open spec fn with_term(expr: Seq<char>, term: Seq<char>) -> Seq<char> {
    if expr.len() == 0 {
        term
    } else {
        expr + seq!['.', '*'] + term
    }
}

/// The expression that the terms make, starting from `start`.
pub open spec fn with_terms(start: Seq<char>, terms: Seq<Seq<char>>) -> Seq<char>
    decreases terms.len(),
{
    if terms.len() == 0 {
        start
    } else {
        with_term(with_terms(start, terms.drop_last()), terms.last())
    }
}

/// The start of an expression that is bound to a directory: the directory,
/// taken literally, and a separator.
pub open spec fn below(dir: Seq<char>) -> Seq<char> {
    escaped(dir).push('/')
}

/// The search expression of a command. With `current_dir`, only what lies
/// below that directory is to match.
pub open spec fn expression_of(current_dir: Option<Seq<char>>, terms: Seq<Seq<char>>) -> Seq<char> {
    with_terms(
        match current_dir {
            Some(dir) => below(dir),
            None => Seq::empty(),
        },
        terms,
    )
}

/// The views of a vector of strings.
pub open spec fn string_views(terms: Seq<String>) -> Seq<Seq<char>> {
    Seq::new(terms.len(), |i: int| terms[i]@)
}

/// The view of an optional string.
pub open spec fn option_view(text: Option<&str>) -> Option<Seq<char>> {
    match text {
        Some(text) => Some(text@),
        None => None,
    }
}

/// Builds the search expression of a command from its terms.
pub fn expression(current_dir: Option<&str>, terms: &Vec<String>) -> (r: String)
    ensures
        r@ == expression_of(option_view(current_dir), string_views(terms@)),
{
    let mut expr = String::new();
    match current_dir {
        Some(dir) => {
            let literal = escape(dir);
            expr.append(literal.as_str());
            proof {
                reveal_strlit("/");
            }
            expr.append("/");
            assert(expr@ =~= below(dir@));
        },
        None => {},
    }
    let ghost start = expr@;
    let ghost all = string_views(terms@);
    let mut i: usize = 0;
    while i < terms.len()
        invariant
            i <= terms.len(),
            all == string_views(terms@),
            expr@ == with_terms(start, all.take(i as int)),
        decreases terms.len() - i,
    {
        let ghost next = all.take(i + 1);
        assert(next.drop_last() =~= all.take(i as int));
        if !expr.as_str().is_empty() {
            proof {
                reveal_strlit(".*");
            }
            expr.append(".*");
        }
        expr.append(terms[i].as_str());
        i += 1;
    }
    assert(all.take(i as int) =~= all);
    expr
}

/// The number of leading characters of `text` that are white space.
pub open spec fn leading_space(text: Seq<char>) -> nat
    decreases text.len(),
{
    if text.len() == 0 || !white_space(text[0]) {
        0
    } else {
        1 + leading_space(text.skip(1))
    }
}

/// The words to complete: the line without the command's name at its
/// start, if it starts with it, and without the white space that follows.
pub open spec fn words_of(line: Seq<char>, cmd: Seq<char>) -> Seq<char> {
    if cmd.is_prefix_of(line) {
        let rest = line.skip(cmd.len() as int);
        rest.skip(leading_space(rest) as int)
    } else {
        line
    }
}

/// The search expression for completing a line: the words of the line, taken
/// literally.
pub open spec fn completion_of(line: Seq<char>, cmd: Seq<char>) -> Seq<char> {
    escaped(words_of(line, cmd))
}

/// `leading_space` counts white space up to the first character that is none.
pub proof fn lemma_leading_space(text: Seq<char>)
    ensures
        leading_space(text) <= text.len(),
        forall|j: int| 0 <= j < leading_space(text) ==> white_space(text[j]),
        leading_space(text) < text.len() ==> !white_space(text[leading_space(text) as int]),
    decreases text.len(),
{
    if text.len() > 0 && white_space(text[0]) {
        let rest = text.skip(1);
        lemma_leading_space(rest);
        assert forall|j: int| 0 <= j < leading_space(text) implies white_space(text[j]) by {
            if j > 0 {
                assert(rest[j - 1] == text[j]);
            }
        }
    }
}

/// A count of white space that stops at a character that is none, or at the
/// end, is `leading_space`.
pub proof fn lemma_leading_space_is(text: Seq<char>, k: int)
    requires
        0 <= k <= text.len(),
        forall|j: int| 0 <= j < k ==> white_space(text[j]),
        k < text.len() ==> !white_space(text[k]),
    ensures
        leading_space(text) == k,
{
    lemma_leading_space(text);
}

/// Does `line` start with `cmd`?
fn has_prefix(line: &str, cmd: &str) -> (r: bool)
    ensures
        r == cmd@.is_prefix_of(line@),
{
    let n = cmd.unicode_len();
    if n > line.unicode_len() {
        return false;
    }
    let mut i: usize = 0;
    while i < n
        invariant
            i <= n,
            n == cmd@.len(),
            n <= line@.len(),
            forall|j: int| 0 <= j < i ==> line@[j] == cmd@[j],
        decreases n - i,
    {
        if line.get_char(i) != cmd.get_char(i) {
            return false;
        }
        i += 1;
    }
    true
}

/// Builds the search expression for completing `line`, as typed after the
/// command named `cmd`.
pub fn completion_query(line: &str, cmd: &str) -> (r: String)
    ensures
        r@ == completion_of(line@, cmd@),
{
    if !has_prefix(line, cmd) {
        return escape(line);
    }
    let total = line.unicode_len();
    let from = cmd.unicode_len();
    let ghost rest = line@.skip(from as int);
    let mut k: usize = from;
    while k < total && is_whitespace(line.get_char(k))
        invariant
            from <= k <= total,
            total == line@.len(),
            rest == line@.skip(from as int),
            forall|j: int| 0 <= j < k - from ==> white_space(rest[j]),
        decreases total - k,
    {
        k += 1;
    }
    proof {
        lemma_leading_space_is(rest, k - from);
        assert(line@.subrange(k as int, total as int) =~= rest.skip(k - from));
    }
    escape(line.substring_char(k, total))
}

/// Chooses the scoring policy: by recency if asked, else by rank if asked,
/// else by both.
pub fn choose_scorer(recent: bool, rank: bool, now: u64) -> (r: Scorer)
    ensures
        r == if recent {
            Scorer::Recent(now)
        } else if rank {
            Scorer::Rank
        } else {
            Scorer::Frecent(now)
        },
{
    if recent {
        Scorer::Recent(now)
    } else if rank {
        Scorer::Rank
    } else {
        Scorer::Frecent(now)
    }
}

/// Is the result listed? It is when asked for, and when the command names no
/// terms at all.
pub fn wants_list(list: bool, has_terms: bool) -> (r: bool)
    ensures
        r == (list || !has_terms),
{
    list || !has_terms
}

/// Is result `i` known to be a directory? Results past the end of `is_dir`
/// are not.
pub open spec fn dir_at(is_dir: Seq<bool>, i: int) -> bool {
    0 <= i < is_dir.len() && is_dir[i]
}

/// The result to change to: the best one that is a directory. Results come
/// in ascending order, so it is the last such.
pub fn pick_directory(scored: &Vec<ScoredRow>, is_dir: &Vec<bool>) -> (r: Option<usize>)
    ensures
        match r {
            Some(i) => i < scored@.len() && dir_at(is_dir@, i as int) && forall|j: int|
                i < j < scored@.len() ==> !dir_at(is_dir@, j),
            None => forall|j: int| 0 <= j < scored@.len() ==> !dir_at(is_dir@, j),
        },
{
    let mut i: usize = scored.len();
    while i > 0
        invariant
            i <= scored@.len(),
            forall|j: int| i <= j < scored@.len() ==> !dir_at(is_dir@, j),
        decreases i,
    {
        i -= 1;
        if i < is_dir.len() && is_dir[i] {
            return Some(i);
        }
    }
    None
}

/// How a command ends.
#[derive(Clone, Copy, Debug, PartialEq, Eq, Structural)]
pub enum Return {
    /// A directory was printed, to change to.
    DoCd,
    /// Nothing was printed.
    NoOutput,
    /// The command did what it was asked.
    Success,
}

impl Return {
    /// The exit status that tells the shell how the command ended.
    pub fn exit_code(self) -> (r: i32)
        ensures
            r == match self {
                Return::DoCd => 69i32,
                Return::NoOutput => 70i32,
                Return::Success => 0i32,
            },
    {
        match self {
            Return::DoCd => 69,
            Return::NoOutput => 70,
            Return::Success => 0,
        }
    }
}

/// How a search ends: with nothing where nothing matched; with success where
/// the matches were listed; else with a directory to change to, if one of the
/// matches is one.
pub fn search_outcome(matches: usize, list: bool, target: Option<usize>) -> (r: Return)
    ensures
        r == if matches == 0 {
            Return::NoOutput
        } else if list {
            Return::Success
        } else if target is Some {
            Return::DoCd
        } else {
            Return::NoOutput
        },
{
    if matches == 0 {
        Return::NoOutput
    } else if list {
        Return::Success
    } else if target.is_some() {
        Return::DoCd
    } else {
        Return::NoOutput
    }
}

} // verus!
