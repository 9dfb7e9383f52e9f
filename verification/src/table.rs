//! The table in memory: finding an entry, recording a visit, aging and
//! pruning.
//!
//! Ranks are binary32 values and all arithmetic on them is done by the
//! caller, who hands in the results; which entry is touched, whether the
//! table ages, and which entries stay is decided here.

use crate::codec::{row_views, Row, RowView};
use crate::paths::{is_same_path, same_path};
use crate::single::{Single, CEILING_BITS, ONE_BITS};
use crate::text::copy_range;
use vstd::prelude::*;

verus! {

/// The index of the first entry whose path is the same path as `path`.
pub open spec fn position(table: Seq<RowView>, path: Seq<u8>) -> Option<int>
    decreases table.len(),
{
    if table.len() == 0 {
        None
    } else if same_path(table[0].path, path) {
        Some(0)
    } else {
        match position(table.skip(1), path) {
            Some(i) => Some(i + 1),
            None => None,
        }
    }
}

/// `position` is the first index that holds the path, or `None` where no
/// entry does.
pub proof fn lemma_position(table: Seq<RowView>, path: Seq<u8>)
    ensures
        match position(table, path) {
            Some(i) => 0 <= i < table.len() && same_path(table[i].path, path) && forall|j: int|
                0 <= j < i ==> !same_path(#[trigger] table[j].path, path),
            None => forall|j: int|
                0 <= j < table.len() ==> !same_path(#[trigger] table[j].path, path),
        },
    decreases table.len(),
{
    if table.len() > 0 && !same_path(table[0].path, path) {
        let rest = table.skip(1);
        lemma_position(rest, path);
        match position(rest, path) {
            Some(i) => {
                assert forall|j: int| 0 <= j < i + 1 implies !same_path(
                    #[trigger] table[j].path,
                    path,
                ) by {
                    if j > 0 {
                        assert(rest[j - 1] == table[j]);
                    }
                }
            },
            None => {
                assert forall|j: int| 0 <= j < table.len() implies !same_path(
                    #[trigger] table[j].path,
                    path,
                ) by {
                    if j > 0 {
                        assert(rest[j - 1] == table[j]);
                    }
                }
            },
        }
    }
}

/// Finds the entry for a path. Paths are compared component by component.
pub fn lookup(table: &Vec<Row>, what: &[u8]) -> (r: Option<usize>)
    ensures
        match r {
            Some(i) => position(row_views(table@), what@) == Some(i as int),
            None => position(row_views(table@), what@) is None,
        },
{
    let ghost rows = row_views(table@);
    let mut i: usize = 0;
    proof {
        lemma_position(rows, what@);
    }
    while i < table.len()
        invariant
            i <= table.len(),
            rows == row_views(table@),
            forall|j: int| 0 <= j < i ==> !same_path(#[trigger] rows[j].path, what@),
        decreases table.len() - i,
    {
        assert(rows[i as int] == table@[i as int]@);
        if is_same_path(table[i].path.as_slice(), what) {
            proof {
                lemma_position(rows, what@);
                match position(rows, what@) {
                    Some(k) => {
                        if k < i {
                            assert(!same_path(rows[k].path, what@));
                        } else if k > i {
                            assert(!same_path(rows[i as int].path, what@));
                        }
                    },
                    None => {
                        assert(!same_path(rows[i as int].path, what@));
                    },
                }
            }
            return Some(i);
        }
        i += 1;
    }
    proof {
        lemma_position(rows, what@);
        match position(rows, what@) {
            Some(k) => {
                assert(!same_path(rows[k].path, what@));
            },
            None => {},
        }
    }
    None
}

/// The table after a visit to `what` at time `now`. An entry for that path
/// keeps its spelling, takes the rank `raised` and the time `now`; where
/// there is none, a new entry with rank one is appended.
pub open spec fn visited(table: Seq<RowView>, what: Seq<u8>, now: u64, raised: Single) -> Seq<
    RowView,
> {
    match position(table, what) {
        Some(i) => table.update(i, RowView { path: table[i].path, rank: raised, time: now }),
        None => table.push(RowView { path: what, rank: Single { bits: ONE_BITS }, time: now }),
    }
}

/// Records a visit to `what` at time `now`. `raised` is the rank that the
/// path's entry is to have from now on, its present rank plus one: the caller
/// finds the present rank with `lookup`. Without such an entry `raised` is
/// not used.
pub fn do_add(table: &mut Vec<Row>, what: &[u8], now: u64, raised: Single)
    ensures
        row_views(final(table)@) == visited(row_views(old(table)@), what@, now, raised),
{
    let ghost before = row_views(table@);
    match lookup(table, what) {
        Some(i) => {
            proof {
                lemma_position(before, what@);
            }
            let path = copy_range(table[i].path.as_slice(), 0, table[i].path.len());
            assert(path@ =~= table@[i as int].path@);
            let row = Row { path, rank: raised, time: now };
            table[i] = row;
        },
        None => {
            let path = copy_range(what, 0, what.len());
            assert(path@ =~= what@);
            let row = Row { path, rank: Single::one(), time: now };
            table.push(row);
        },
    }
}

/// Does a table whose ranks sum to `total` age? It does when the sum is
/// above the ceiling.
pub open spec fn ages(total: Single) -> bool {
    (Single { bits: CEILING_BITS }).below(total)
}

/// Tests whether a table whose ranks sum to `total` ages.
pub fn needs_aging(total: Single) -> (r: bool)
    ensures
        r == ages(total),
{
    total.gt(Single::ceiling())
}

/// The table after the aging pass: where the sum of the ranks is above the
/// ceiling, entry `i` takes the rank `decayed[i]`, once; otherwise, and for
/// entries past the end of `decayed`, nothing changes.
pub open spec fn aged(table: Seq<RowView>, total: Single, decayed: Seq<Single>) -> Seq<RowView> {
    if ages(total) {
        Seq::new(
            table.len(),
            |i: int|
                RowView {
                    path: table[i].path,
                    rank: if i < decayed.len() {
                        decayed[i]
                    } else {
                        table[i].rank
                    },
                    time: table[i].time,
                },
        )
    } else {
        table
    }
}

/// The aging pass. `total` is the sum of all ranks in the table, and
/// `decayed[i]` the rank of entry `i` after decay. Returns whether the table
/// aged.
pub fn age(table: &mut Vec<Row>, total: Single, decayed: &Vec<Single>) -> (r: bool)
    ensures
        r == ages(total),
        row_views(final(table)@) == aged(row_views(old(table)@), total, decayed@),
        final(table)@.len() == old(table)@.len(),
{
    let ghost before = row_views(table@);
    if !needs_aging(total) {
        return false;
    }
    let mut i: usize = 0;
    while i < table.len()
        invariant
            i <= table.len(),
            table@.len() == before.len(),
            ages(total),
            forall|j: int| 0 <= j < i ==> #[trigger] table@[j]@ == aged(before, total, decayed@)[j],
            forall|j: int| i <= j < table.len() ==> #[trigger] table@[j]@ == before[j],
        decreases table.len() - i,
    {
        assert(table@[i as int]@ == before[i as int]);
        if i < decayed.len() {
            let path = copy_range(table[i].path.as_slice(), 0, table[i].path.len());
            assert(path@ =~= table@[i as int].path@);
            let row = Row { path, rank: decayed[i], time: table[i].time };
            table[i] = row;
        }
        i += 1;
    }
    true
}

/// Is entry `i` known to be a directory still? Entries past the end of
/// `is_dir` are taken to be.
pub open spec fn live_at(is_dir: Seq<bool>, i: int) -> bool {
    if 0 <= i < is_dir.len() {
        is_dir[i]
    } else {
        true
    }
}

/// The entries that survive pruning, in order: those that are directories.
pub open spec fn pruned(table: Seq<RowView>, is_dir: Seq<bool>) -> Seq<RowView>
    decreases table.len(),
{
    if table.len() == 0 {
        Seq::empty()
    } else if live_at(is_dir, table.len() - 1) {
        pruned(table.drop_last(), is_dir).push(table.last())
    } else {
        pruned(table.drop_last(), is_dir)
    }
}

/// Pruning never grows a table, leaves it alone when every entry is a
/// directory, and keeps only entries that are directories.
pub proof fn lemma_pruned(table: Seq<RowView>, is_dir: Seq<bool>)
    ensures
        pruned(table, is_dir).len() <= table.len(),
        (forall|i: int| 0 <= i < table.len() ==> live_at(is_dir, i)) ==> pruned(table, is_dir)
            == table,
        forall|k: int|
            0 <= k < pruned(table, is_dir).len() ==> exists|i: int|
                0 <= i < table.len() && live_at(is_dir, i) && table[i] == #[trigger] pruned(
                    table,
                    is_dir,
                )[k],
    decreases table.len(),
{
    if table.len() > 0 {
        let head = table.drop_last();
        lemma_pruned(head, is_dir);
        if forall|i: int| 0 <= i < table.len() ==> live_at(is_dir, i) {
            assert(pruned(head, is_dir) == head);
            assert(head.push(table.last()) =~= table);
        }
        let out = pruned(table, is_dir);
        assert forall|k: int| 0 <= k < out.len() implies exists|i: int|
            0 <= i < table.len() && live_at(is_dir, i) && table[i] == #[trigger] out[k] by {
            if k < pruned(head, is_dir).len() {
                let i = choose|i: int|
                    0 <= i < head.len() && live_at(is_dir, i) && head[i] == pruned(head, is_dir)[k];
                assert(table[i] == out[k]);
            } else {
                assert(table[table.len() - 1] == out[k]);
            }
        }
    }
}

/// Pruning twice against an unchanged filesystem removes entries only the
/// first time. `is_directory` says of each path whether it names a
/// directory; both runs see the same answers.
pub proof fn lemma_prune_idempotent(table: Seq<RowView>, is_directory: spec_fn(Seq<u8>) -> bool)
    ensures
        ({
            let first = pruned(table, Seq::new(table.len(), |i: int| is_directory(table[i].path)));
            let second = pruned(first, Seq::new(first.len(), |i: int| is_directory(first[i].path)));
            second == first
        }),
{
    let flags = Seq::new(table.len(), |i: int| is_directory(table[i].path));
    let first = pruned(table, flags);
    let again = Seq::new(first.len(), |i: int| is_directory(first[i].path));
    lemma_pruned(table, flags);
    lemma_pruned(first, again);
}

/// Removes every entry that is no directory any more: entry `i` stays when
/// `is_dir[i]` holds, and entries past the end of `is_dir` stay. Returns how
/// many entries went.
pub fn clean(table: &mut Vec<Row>, is_dir: &Vec<bool>) -> (r: usize)
    ensures
        row_views(final(table)@) == pruned(row_views(old(table)@), is_dir@),
        r == old(table)@.len() - final(table)@.len(),
{
    let ghost before = row_views(table@);
    let start = table.len();
    let mut out: Vec<Row> = Vec::new();
    let mut i: usize = 0;
    while i < table.len()
        invariant
            i <= table.len(),
            before == row_views(table@),
            row_views(out@) == pruned(before.take(i as int), is_dir@),
            out@.len() <= i,
        decreases table.len() - i,
    {
        let ghost next = before.take(i + 1);
        assert(next.drop_last() =~= before.take(i as int));
        let stays: bool = if i < is_dir.len() { is_dir[i] } else { true };
        if stays {
            let row = table[i].clone();
            out.push(row);
        }
        i += 1;
    }
    assert(before.take(i as int) =~= before);
    let left = out.len();
    *table = out;
    start - left
}

/// No two entries are the same path.
pub open spec fn distinct_paths(table: Seq<RowView>) -> bool {
    forall|i: int, j: int|
        0 <= i < j < table.len() ==> !same_path(#[trigger] table[i].path, #[trigger] table[j].path)
}

/// A visit keeps the paths of a table distinct: the path visited has one
/// entry afterwards, whether it had one before or not.
pub proof fn lemma_visit_keeps_distinct(
    table: Seq<RowView>,
    what: Seq<u8>,
    now: u64,
    raised: Single,
)
    requires
        distinct_paths(table),
    ensures
        distinct_paths(visited(table, what, now, raised)),
        position(visited(table, what, now, raised), what) is Some,
        visited(table, what, now, raised)[position(visited(table, what, now, raised), what)->0].time
            == now,
{
    let after = visited(table, what, now, raised);
    lemma_position(table, what);
    lemma_position(after, what);
    match position(table, what) {
        Some(k) => {
            assert(same_path(after[k].path, what));
        },
        None => {
            let last = table.len() as int;
            assert(after[last].path == what);
        },
    }
}

/// Two visits to a path leave one entry for it where the first visit left
/// it, with the rank and the time of the second visit, and as many entries
/// as after the first.
pub proof fn lemma_visit_twice(
    table: Seq<RowView>,
    what: Seq<u8>,
    first: (u64, Single),
    second: (u64, Single),
)
    ensures
        ({
            let once = visited(table, what, first.0, first.1);
            let twice = visited(once, what, second.0, second.1);
            &&& position(once, what) is Some
            &&& twice.len() == once.len()
            &&& twice == once.update(
                position(once, what)->0,
                RowView {
                    path: once[position(once, what)->0].path,
                    rank: second.1,
                    time: second.0,
                },
            )
        }),
{
    let once = visited(table, what, first.0, first.1);
    lemma_position(table, what);
    lemma_position(once, what);
    match position(table, what) {
        Some(k) => {
            assert(same_path(once[k].path, what));
        },
        None => {
            assert(same_path(once[table.len() as int].path, what));
        },
    }
}

/// Visiting an empty table twice for one path leaves exactly one entry, with
/// the rank that the second visit raised it to.
pub proof fn lemma_two_visits_from_nothing(
    what: Seq<u8>,
    first: (u64, Single),
    second: (u64, Single),
)
    ensures
        visited(visited(Seq::empty(), what, first.0, first.1), what, second.0, second.1) == seq![
            RowView { path: what, rank: second.1, time: second.0 },
        ],
{
}

/// Pruning keeps the paths of a table distinct.
pub proof fn lemma_prune_keeps_distinct(table: Seq<RowView>, is_dir: Seq<bool>)
    requires
        distinct_paths(table),
    ensures
        distinct_paths(pruned(table, is_dir)),
    decreases table.len(),
{
    if table.len() > 0 {
        let head = table.drop_last();
        lemma_prune_keeps_distinct(head, is_dir);
        lemma_pruned(head, is_dir);
    }
}

/// Aging keeps every path and every time, so it keeps the paths distinct.
pub proof fn lemma_age_keeps_paths(table: Seq<RowView>, total: Single, decayed: Seq<Single>)
    ensures
        aged(table, total, decayed).len() == table.len(),
        forall|i: int|
            0 <= i < table.len() ==> (#[trigger] aged(table, total, decayed)[i]).path
                == table[i].path && aged(table, total, decayed)[i].time == table[i].time,
        distinct_paths(table) ==> distinct_paths(aged(table, total, decayed)),
        !ages(total) ==> aged(table, total, decayed) == table,
{
}

} // verus!
