use zrs::codec::Row;
use zrs::score::{frecent, sort_scored, Factor, Formula, ScoredRow, Scorer, DAY, HOUR, WEEK};
use zrs::single::Single;

fn single(x: f32) -> Single {
    Single::from_bits(x.to_bits())
}

fn value(x: Single) -> f32 {
    f32::from_bits(x.bits)
}

fn row(path: &str, rank: f32, time: u64) -> Row {
    Row { path: path.as_bytes().to_vec(), rank: single(rank), time }
}

/// The arithmetic of a formula, as a caller does it.
fn compute(formula: Formula, rank: f32) -> f32 {
    match formula {
        Formula::Rank => rank,
        Formula::NegatedAge(age) => -(age as f32),
        Formula::Scaled(factor) => rank * factor.times as f32 / factor.over as f32,
    }
}

fn score(mode: Scorer, row: &Row) -> Result<f32, Vec<u8>> {
    let computed = compute(mode.formula(row), value(row.rank));
    match mode.scored(row, single(computed)) {
        Ok(scored) => Ok(value(scored.score)),
        Err(e) => Err(e.path),
    }
}

fn scored(path: &str, score: f32) -> ScoredRow {
    ScoredRow { path: path.as_bytes().to_vec(), score: single(score) }
}

fn order(rows: Vec<ScoredRow>) -> Vec<(String, f32)> {
    sort_scored(&rows)
        .into_iter()
        .map(|r| (String::from_utf8(r.path).unwrap(), value(r.score)))
        .collect()
}

#[test]
fn the_bands_are_hour_day_and_week() {
    assert_eq!(3600, HOUR);
    assert_eq!(24 * 3600, DAY);
    assert_eq!(7 * 24 * 3600, WEEK);
}

#[test]
fn frecent_at_the_edges_of_the_bands() {
    assert_eq!(Factor { times: 4, over: 1 }, frecent(0));
    assert_eq!(Factor { times: 4, over: 1 }, frecent(3599));
    assert_eq!(Factor { times: 2, over: 1 }, frecent(3600));
    assert_eq!(Factor { times: 2, over: 1 }, frecent(86399));
    assert_eq!(Factor { times: 1, over: 2 }, frecent(86400));
    assert_eq!(Factor { times: 1, over: 2 }, frecent(604799));
    assert_eq!(Factor { times: 1, over: 4 }, frecent(604800));
    assert_eq!(Factor { times: 1, over: 4 }, frecent(u64::MAX));
}

#[test]
fn frecent_score_falls_with_age() {
    let now = 2_000_000_000u64;
    let at = |age: u64| score(Scorer::Frecent(now), &row("/a", 10.0, now - age)).unwrap();
    let (half_hour, half_day, three_days, month) =
        (at(30 * 60), at(12 * 3600), at(3 * 86400), at(30 * 86400));
    assert_eq!(40.0, half_hour);
    assert_eq!(20.0, half_day);
    assert_eq!(5.0, three_days);
    assert_eq!(2.5, month);
    assert!(half_hour > half_day && half_day > three_days && three_days > month);
}

#[test]
fn formula_of_each_policy() {
    let entry = row("/a", 3.0, 1_000);
    assert_eq!(Formula::Rank, Scorer::Rank.formula(&entry));
    assert_eq!(Formula::NegatedAge(500), Scorer::Recent(1_500).formula(&entry));
    assert_eq!(
        Formula::Scaled(Factor { times: 4, over: 1 }),
        Scorer::Frecent(1_500).formula(&entry)
    );
    assert_eq!(
        Formula::Scaled(Factor { times: 1, over: 2 }),
        Scorer::Frecent(1_000 + 86_400).formula(&entry)
    );
}

#[test]
fn a_timestamp_in_the_future_counts_as_now() {
    let entry = row("/a", 3.0, 2_000);
    assert_eq!(Formula::NegatedAge(0), Scorer::Recent(1_500).formula(&entry));
    assert_eq!(Formula::NegatedAge(0), Scorer::Recent(2_000).formula(&entry));
    assert_eq!(
        Formula::Scaled(Factor { times: 4, over: 1 }),
        Scorer::Frecent(1_500).formula(&entry)
    );
    assert_eq!(Ok(0.0), score(Scorer::Recent(1_500), &entry));
    assert_eq!(Ok(12.0), score(Scorer::Frecent(1_500), &entry));
}

#[test]
fn score_by_rank_is_the_rank() {
    let entry = row("/a", 3.5, 1_000);
    assert_eq!(Ok(3.5), score(Scorer::Rank, &entry));
    let scored = Scorer::Rank.scored(&entry, single(f32::NAN)).unwrap();
    assert_eq!(3.5, value(scored.score));
    assert_eq!(b"/a".to_vec(), scored.path);
}

#[test]
fn score_by_recency_is_minus_the_age() {
    assert_eq!(Ok(-500.0), score(Scorer::Recent(1_500), &row("/a", 3.5, 1_000)));
    assert_eq!(Ok(-1.0), score(Scorer::Recent(1_001), &row("/a", 99.0, 1_000)));
}

#[test]
fn a_score_that_is_not_finite_is_refused() {
    let entry = row("/big", 3.0e38, 1_000);
    assert_eq!(Err(b"/big".to_vec()), score(Scorer::Frecent(1_500), &entry));
    let entry = row("/a", 1.0, 1_000);
    for bad in [f32::INFINITY, f32::NEG_INFINITY, f32::NAN] {
        assert!(Scorer::Recent(1_500).scored(&entry, single(bad)).is_err());
        assert!(Scorer::Frecent(1_500).scored(&entry, single(bad)).is_err());
    }
    let entry = row("/endless", f32::INFINITY, 1_000);
    assert_eq!(
        Some(b"/endless".to_vec()),
        Scorer::Rank.scored(&entry, single(1.0)).err().map(|e| e.path)
    );
}

#[test]
fn finite_ranks_and_past_timestamps_give_finite_scores() {
    let now = 1_700_000_000u64;
    for rank in [0.0f32, 0.98, 1.0, 12.5, 9000.0, 1.0e-45, 8.0e37] {
        for time in [0u64, 1, now - 700_000, now - 90_000, now - 4_000, now - 1, now] {
            let entry = row("/a", rank, time);
            for mode in [Scorer::Rank, Scorer::Recent(now), Scorer::Frecent(now)] {
                assert!(score(mode, &entry).unwrap().is_finite());
            }
        }
    }
}

#[test]
fn sort_scored_is_ascending() {
    assert_eq!(
        vec![
            ("/d".to_string(), -7.0),
            ("/b".to_string(), 0.5),
            ("/a".to_string(), 2.0),
            ("/c".to_string(), 40.0),
        ],
        order(vec![scored("/a", 2.0), scored("/b", 0.5), scored("/c", 40.0), scored("/d", -7.0)])
    );
    assert!(order(vec![]).is_empty());
}

#[test]
fn sort_scored_keeps_the_order_of_equal_scores() {
    assert_eq!(
        vec![
            ("/z".to_string(), 1.0),
            ("/first".to_string(), 2.0),
            ("/second".to_string(), 2.0),
            ("/third".to_string(), 2.0),
            ("/top".to_string(), 3.0),
        ],
        order(vec![
            scored("/first", 2.0),
            scored("/top", 3.0),
            scored("/second", 2.0),
            scored("/z", 1.0),
            scored("/third", 2.0),
        ])
    );
    assert_eq!(
        vec![("/minus".to_string(), -0.0), ("/plus".to_string(), 0.0)],
        order(vec![scored("/minus", -0.0), scored("/plus", 0.0)])
    );
    assert_eq!(
        vec![("/plus".to_string(), 0.0), ("/minus".to_string(), -0.0)],
        order(vec![scored("/plus", 0.0), scored("/minus", -0.0)])
    );
}

#[test]
fn sort_scored_agrees_with_a_stable_sort_of_the_values() {
    let values = [5.0f32, -3.0, 5.0, 0.0, 1.5, -3.0, 100.0, 1.0e-40, -0.0, 5.0, 2.0, -1.0e30];
    let rows: Vec<ScoredRow> =
        values.iter().enumerate().map(|(i, v)| scored(&format!("/{}", i), *v)).collect();
    let mut expected: Vec<(String, f32)> =
        values.iter().enumerate().map(|(i, v)| (format!("/{}", i), *v)).collect();
    expected.sort_by(|a, b| a.1.partial_cmp(&b.1).unwrap());
    assert_eq!(expected, order(rows));
}

#[test]
fn sorting_twice_changes_nothing() {
    let rows = vec![scored("/a", 3.0), scored("/b", 1.0), scored("/c", 3.0), scored("/d", 2.0)];
    let once = sort_scored(&rows);
    let twice = sort_scored(&once);
    assert_eq!(once, twice);
}
