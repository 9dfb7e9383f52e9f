//! Scoring policies and the order of results.
//!
//! A score is a binary32 value. Which arithmetic gives the score of an entry
//! is decided here (`Scorer::formula`); the caller carries it out and hands
//! the value to `Scorer::scored`, which refuses what is not finite. Results
//! are ordered by score, ascending, and entries of equal score keep their
//! order.

use crate::clock::{age, time_delta};
use crate::codec::Row;
use crate::single::Single;
use crate::text::copy_range;
use vstd::prelude::*;

verus! {

/// Seconds in an hour.
pub const HOUR: u64 = 3600;

/// Seconds in a day.
pub const DAY: u64 = 86400;

/// Seconds in a week.
pub const WEEK: u64 = 604800;

/// How entries are scored. `Recent` and `Frecent` carry the present time.
#[derive(Clone, Copy, Debug, PartialEq, Eq, Structural)]
pub enum Scorer {
    /// By rank alone.
    Rank,
    /// By time since the last visit alone.
    Recent(u64),
    /// By rank, weighted by the time since the last visit.
    Frecent(u64),
}

/// A positive rational multiplier, `times / over`.
#[derive(Clone, Copy, Debug, PartialEq, Eq, Structural)]
pub struct Factor {
    pub times: u8,
    pub over: u8,
}

impl Factor {
    /// Is this factor greater than `other`, as a rational number?
    pub open spec fn greater(self, other: Factor) -> bool {
        self.times * other.over > other.times * self.over
    }
}

/// The arithmetic that gives an entry's score.
#[derive(Clone, Copy, Debug, PartialEq, Eq, Structural)]
pub enum Formula {
    /// The rank itself.
    Rank,
    /// Minus the given number of seconds.
    NegatedAge(u64),
    /// The rank multiplied by the factor.
    Scaled(Factor),
}

/// The weight of a rank that was last raised `dx` seconds ago: times four
/// within the hour, times two within the day, a half within the week, and a
/// quarter after that.
pub open spec fn frecency(dx: u64) -> Factor {
    if dx < HOUR {
        Factor { times: 4, over: 1 }
    } else if dx < DAY {
        Factor { times: 2, over: 1 }
    } else if dx < WEEK {
        Factor { times: 1, over: 2 }
    } else {
        Factor { times: 1, over: 4 }
    }
}

/// The weight of a rank that was last raised `dx` seconds ago.
pub fn frecent(dx: u64) -> (r: Factor)
    ensures
        r == frecency(dx),
        r.times > 0,
        r.over > 0,
{
    if dx < HOUR {
        Factor { times: 4, over: 1 }
    } else if dx < DAY {
        Factor { times: 2, over: 1 }
    } else if dx < WEEK {
        Factor { times: 1, over: 2 }
    } else {
        Factor { times: 1, over: 4 }
    }
}

/// The weight never grows with age, and it falls from each band of ages to
/// the next: within the hour, within the day, within the week, older.
pub proof fn lemma_frecency_falls(younger: u64, older: u64)
    requires
        younger <= older,
    ensures
        !frecency(older).greater(frecency(younger)),
        younger < HOUR <= older ==> frecency(younger).greater(frecency(older)),
        younger < DAY <= older ==> frecency(younger).greater(frecency(older)),
        younger < WEEK <= older ==> frecency(younger).greater(frecency(older)),
{
    let a = frecency(younger);
    let b = frecency(older);
    let (at, ao) = (a.times as int, a.over as int);
    let (bt, bo) = (b.times as int, b.over as int);
    assert(!(bt * ao > at * bo)) by (nonlinear_arith)
        requires
            (at == 4 && ao == 1 && bt <= 4 && bo >= 1) || (at == 2 && ao == 1 && bt <= 2 && bo
                >= 1) || (at == 1 && ao == 2 && bt == 1 && bo >= 2) || (at == 1 && ao == 4 && bt
                == 1 && bo == 4),
    ;
    if (younger < HOUR && HOUR <= older) || (younger < DAY && DAY <= older) || (younger < WEEK
        && WEEK <= older) {
        assert(at * bo > bt * ao) by (nonlinear_arith)
            requires
                (at == 4 && ao == 1 && bt <= 2 && bo >= 1) || (at == 2 && ao == 1 && bt == 1
                    && bo >= 2) || (at == 1 && ao == 2 && bt == 1 && bo == 4),
        ;
    }
}

impl Scorer {
    /// The arithmetic that gives the score of an entry last visited at
    /// `time`.
    pub open spec fn formula_of(self, time: u64) -> Formula {
        match self {
            Scorer::Rank => Formula::Rank,
            Scorer::Recent(now) => Formula::NegatedAge(age(now, time)),
            Scorer::Frecent(now) => Formula::Scaled(frecency(age(now, time))),
        }
    }

    /// The score of an entry under this policy, where `value` is what the
    /// entry's formula gave. By rank alone, the score is the rank and `value`
    /// is not used.
    pub open spec fn score_of(self, rank: Single, value: Single) -> Single {
        match self {
            Scorer::Rank => rank,
            _ => value,
        }
    }

    /// The arithmetic that gives the entry's score.
    pub fn formula(self, row: &Row) -> (r: Formula)
        ensures
            r == self.formula_of(row.time),
    {
        match self {
            Scorer::Rank => Formula::Rank,
            Scorer::Recent(now) => Formula::NegatedAge(time_delta(now, row.time)),
            Scorer::Frecent(now) => Formula::Scaled(frecent(time_delta(now, row.time))),
        }
    }

    /// Scores an entry. `value` is what the entry's formula gave. A score
    /// that is not finite is refused.
    pub fn scored(self, row: &Row, value: Single) -> (r: Result<ScoredRow, NonFinite>)
        ensures
            match r {
                Ok(scored) => self.score_of(row.rank, value).finite() && scored@ == (ScoredView {
                    path: row.path@,
                    score: self.score_of(row.rank, value),
                }),
                Err(e) => !self.score_of(row.rank, value).finite() && e.path@ == row.path@,
            },
    {
        let score = match self {
            Scorer::Rank => row.rank,
            _ => value,
        };
        let path = copy_range(row.path.as_slice(), 0, row.path.len());
        assert(path@ =~= row.path@);
        if score.is_finite() {
            Ok(ScoredRow { path, score })
        } else {
            Err(NonFinite { path })
        }
    }
}

/// By rank alone, an entry of finite rank always has a score, and it is the
/// rank.
pub proof fn lemma_rank_score_finite(rank: Single, value: Single)
    requires
        rank.finite(),
    ensures
        Scorer::Rank.score_of(rank, value) == rank,
        Scorer::Rank.score_of(rank, value).finite(),
{
}

/// The entry at `path` has a score that is not finite.
#[derive(Debug, PartialEq, Eq)]
pub struct NonFinite {
    pub path: Vec<u8>,
}

/// A path with its score. The score of a row that `Scorer::scored` or a
/// search gave is finite.
#[derive(Debug, PartialEq, Eq)]
pub struct ScoredRow {
    pub path: Vec<u8>,
    pub score: Single,
}

/// The mathematical value of a `ScoredRow`.
pub struct ScoredView {
    pub path: Seq<u8>,
    pub score: Single,
}

impl View for ScoredRow {
    type V = ScoredView;

    open spec fn view(&self) -> ScoredView {
        ScoredView { path: self.path@, score: self.score }
    }
}

impl Clone for ScoredRow {
    fn clone(&self) -> (r: ScoredRow)
        ensures
            r@ == self@,
    {
        let path = copy_range(self.path.as_slice(), 0, self.path.len());
        assert(path@ =~= self.path@);
        ScoredRow { path, score: self.score }
    }
}

/// The views of a vector of scored rows.
pub open spec fn scored_views(rows: Seq<ScoredRow>) -> Seq<ScoredView> {
    Seq::new(rows.len(), |i: int| rows[i]@)
}

/// Where `x` goes in the ordered sequence `s`: behind the last row whose
/// score is not above that of `x`.
pub open spec fn place(s: Seq<ScoredView>, x: ScoredView) -> int
    decreases s.len(),
{
    if s.len() == 0 {
        0
    } else if s.last().score.key() <= x.score.key() {
        s.len() as int
    } else {
        place(s.drop_last(), x)
    }
}

/// The rows in ascending order of score; rows of equal score keep the order
/// they came in.
pub open spec fn ascending(s: Seq<ScoredView>) -> Seq<ScoredView>
    decreases s.len(),
{
    if s.len() == 0 {
        Seq::empty()
    } else {
        let before = ascending(s.drop_last());
        before.insert(place(before, s.last()), s.last())
    }
}

/// Is the sequence in ascending order of score?
pub open spec fn is_ascending(s: Seq<ScoredView>) -> bool {
    forall|i: int, j: int| 0 <= i < j < s.len() ==> s[i].score.key() <= s[j].score.key()
}

/// `place` is within the sequence; all rows from it on score above `x`, and
/// the row before it does not.
pub proof fn lemma_place(s: Seq<ScoredView>, x: ScoredView)
    ensures
        0 <= place(s, x) <= s.len(),
        forall|j: int| place(s, x) <= j < s.len() ==> s[j].score.key() > x.score.key(),
        place(s, x) > 0 ==> s[place(s, x) - 1].score.key() <= x.score.key(),
    decreases s.len(),
{
    if s.len() > 0 && s.last().score.key() > x.score.key() {
        let head = s.drop_last();
        lemma_place(head, x);
        assert forall|j: int| place(s, x) <= j < s.len() implies s[j].score.key()
            > x.score.key() by {
            if j < head.len() {
                assert(head[j] == s[j]);
            }
        }
    }
}

/// A position with only higher scores from it on, and a score that is not
/// higher just before it, is `place`.
pub proof fn lemma_place_is(s: Seq<ScoredView>, x: ScoredView, p: int)
    requires
        0 <= p <= s.len(),
        forall|j: int| p <= j < s.len() ==> s[j].score.key() > x.score.key(),
        p > 0 ==> s[p - 1].score.key() <= x.score.key(),
    ensures
        place(s, x) == p,
    decreases s.len(),
{
    if s.len() > 0 && p < s.len() {
        lemma_place_is(s.drop_last(), x, p);
    }
}

/// Ordering keeps every row, as often as it came, and the result is in
/// ascending order of score.
pub proof fn lemma_ascending(s: Seq<ScoredView>)
    ensures
        ascending(s).len() == s.len(),
        ascending(s).to_multiset() == s.to_multiset(),
        is_ascending(ascending(s)),
    decreases s.len(),
{
    broadcast use vstd::seq_lib::to_multiset_build, vstd::seq_lib::to_multiset_insert;

    if s.len() == 0 {
        assert(s =~= ascending(s));
    } else {
        let head = s.drop_last();
        let x = s.last();
        lemma_ascending(head);
        let before = ascending(head);
        lemma_place(before, x);
        let p = place(before, x);
        let out = before.insert(p, x);
        assert(s =~= head.push(x));
        assert(out.to_multiset() == before.to_multiset().insert(x));
        assert(head.push(x).to_multiset() =~= head.to_multiset().insert(x));
        assert(ascending(s) == out);
        assert(out.to_multiset() =~= s.to_multiset());
        assert forall|i: int, j: int| 0 <= i < j < out.len() implies out[i].score.key()
            <= out[j].score.key() by {
            if j < p {
                assert(out[i] == before[i] && out[j] == before[j]);
            } else if j == p {
                assert(out[i] == before[i]);
                if p > 0 {
                    assert(before[i].score.key() <= before[p - 1].score.key());
                }
            } else if i < p {
                assert(out[i] == before[i] && out[j] == before[j - 1]);
            } else if i == p {
                assert(out[j] == before[j - 1]);
            } else {
                assert(out[i] == before[i - 1] && out[j] == before[j - 1]);
            }
        }
    }
}

/// The rows whose score has the given key, in the order they stand in.
pub open spec fn with_key(s: Seq<ScoredView>, key: int) -> Seq<ScoredView>
    decreases s.len(),
{
    if s.len() == 0 {
        Seq::empty()
    } else if s.last().score.key() == key {
        with_key(s.drop_last(), key).push(s.last())
    } else {
        with_key(s.drop_last(), key)
    }
}

/// The rows with a given key in `a + b` are those in `a`, then those in `b`.
pub proof fn lemma_with_key_concat(a: Seq<ScoredView>, b: Seq<ScoredView>, key: int)
    ensures
        with_key(a + b, key) == with_key(a, key) + with_key(b, key),
    decreases b.len(),
{
    if b.len() == 0 {
        assert(a + b =~= a);
        assert(with_key(a, key) + with_key(b, key) =~= with_key(a, key));
    } else {
        lemma_with_key_concat(a, b.drop_last(), key);
        assert((a + b).drop_last() =~= a + b.drop_last());
        assert((a + b).last() == b.last());
        assert(with_key(a + b, key) =~= with_key(a, key) + with_key(b, key));
    }
}

/// Rows whose keys all differ from the given one hold none with it.
pub proof fn lemma_with_key_none(s: Seq<ScoredView>, key: int)
    requires
        forall|i: int| 0 <= i < s.len() ==> (#[trigger] s[i]).score.key() != key,
    ensures
        with_key(s, key) == Seq::<ScoredView>::empty(),
    decreases s.len(),
{
    if s.len() > 0 {
        let head = s.drop_last();
        assert forall|i: int| 0 <= i < head.len() implies (#[trigger] head[i]).score.key()
            != key by {
            assert(head[i] == s[i]);
        }
        lemma_with_key_none(head, key);
        assert(s.last() == s[s.len() - 1]);
    }
}

/// Ordering is stable: the rows of any one score come out in the order they
/// went in. With `lemma_ascending` this fixes the result: it is the one
/// ascending arrangement in which equal scores keep their order.
pub proof fn lemma_ascending_stable(s: Seq<ScoredView>, key: int)
    ensures
        with_key(ascending(s), key) == with_key(s, key),
    decreases s.len(),
{
    if s.len() > 0 {
        let head = s.drop_last();
        let x = s.last();
        lemma_ascending_stable(head, key);
        let before = ascending(head);
        lemma_place(before, x);
        let p = place(before, x);
        let low = before.take(p);
        let high = before.skip(p);
        assert(before =~= low + high);
        assert(before.insert(p, x) =~= low + seq![x] + high);
        lemma_with_key_concat(low, high, key);
        lemma_with_key_concat(low + seq![x], high, key);
        lemma_with_key_concat(low, seq![x], key);
        assert(seq![x].drop_last() =~= Seq::<ScoredView>::empty());
        assert(with_key(Seq::<ScoredView>::empty(), key) == Seq::<ScoredView>::empty());
        if x.score.key() == key {
            assert forall|i: int| 0 <= i < high.len() implies (#[trigger] high[i]).score.key()
                != key by {
                assert(high[i] == before[p + i]);
            }
            lemma_with_key_none(high, key);
            assert(with_key(seq![x], key) =~= seq![x]);
            assert(with_key(ascending(s), key) =~= with_key(before, key).push(x));
        } else {
            assert(with_key(seq![x], key) =~= Seq::<ScoredView>::empty());
            assert(with_key(ascending(s), key) =~= with_key(before, key));
        }
    }
}

/// Rows that come in ascending order stay as they are.
pub proof fn lemma_ascending_settled(s: Seq<ScoredView>)
    requires
        is_ascending(s),
    ensures
        ascending(s) == s,
    decreases s.len(),
{
    if s.len() == 0 {
        assert(ascending(s) =~= s);
    } else {
        let head = s.drop_last();
        assert(is_ascending(head)) by {
            assert forall|i: int, j: int| 0 <= i < j < head.len() implies head[i].score.key()
                <= head[j].score.key() by {
                assert(head[i] == s[i] && head[j] == s[j]);
            }
        }
        lemma_ascending_settled(head);
        if head.len() > 0 {
            assert(head.last() == s[s.len() - 2]);
        }
        assert(place(head, s.last()) == head.len());
        assert(head.insert(head.len() as int, s.last()) =~= s);
    }
}

/// Ordering twice gives what ordering once gives.
pub proof fn lemma_ascending_twice(s: Seq<ScoredView>)
    ensures
        ascending(ascending(s)) == ascending(s),
{
    lemma_ascending(s);
    lemma_ascending_settled(ascending(s));
}

/// Orders rows by score, ascending: the best match comes last. Rows of equal
/// score keep the order they came in.
pub fn sort_scored(rows: &Vec<ScoredRow>) -> (r: Vec<ScoredRow>)
    ensures
        scored_views(r@) == ascending(scored_views(rows@)),
{
    let ghost all = scored_views(rows@);
    let mut out: Vec<ScoredRow> = Vec::new();
    let mut i: usize = 0;
    while i < rows.len()
        invariant
            i <= rows.len(),
            all == scored_views(rows@),
            out@.len() == i,
            scored_views(out@) == ascending(all.take(i as int)),
        decreases rows.len() - i,
    {
        let row = rows[i].clone();
        let key = row.score.order_key();
        let ghost next = all.take(i + 1);
        let ghost before = scored_views(out@);
        assert(next.drop_last() =~= all.take(i as int));
        let mut p: usize = out.len();
        while p > 0 && out[p - 1].score.order_key() > key
            invariant
                p <= out.len(),
                before == scored_views(out@),
                key == row@.score.key(),
                forall|j: int| p <= j < out.len() ==> before[j].score.key() > key,
            decreases p,
        {
            p -= 1;
        }
        proof {
            lemma_place_is(before, row@, p as int);
        }
        out.insert(p, row);
        i += 1;
    }
    assert(all.take(i as int) =~= all);
    out
}

} // verus!
