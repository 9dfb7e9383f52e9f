use zrs::codec::Row;
use zrs::single::Single;
use zrs::table::{age, clean, do_add, lookup, needs_aging};

fn single(x: f32) -> Single {
    Single::from_bits(x.to_bits())
}

fn value(x: Single) -> f32 {
    f32::from_bits(x.bits)
}

fn row(path: &str, rank: f32, time: u64) -> Row {
    Row { path: path.as_bytes().to_vec(), rank: single(rank), time }
}

/// One visit, with the arithmetic done as a caller does it.
fn visit(table: &mut Vec<Row>, path: &str, now: u64) {
    let raised = match lookup(table, path.as_bytes()) {
        Some(i) => single(value(table[i].rank) + 1.0),
        None => single(1.0),
    };
    do_add(table, path.as_bytes(), now, raised);
    let total: f32 = table.iter().map(|r| value(r.rank)).sum();
    let decayed: Vec<Single> = table.iter().map(|r| single(value(r.rank) * 0.99)).collect();
    age(table, single(total), &decayed);
}

fn fields(table: &[Row]) -> Vec<(String, f32, u64)> {
    table
        .iter()
        .map(|r| (String::from_utf8(r.path.clone()).unwrap(), value(r.rank), r.time))
        .collect()
}

#[test]
fn lookup_finds_the_first_entry_for_a_path() {
    let table = vec![row("/a", 1.0, 1), row("/b", 2.0, 2), row("/a", 3.0, 3)];
    assert_eq!(Some(0), lookup(&table, b"/a"));
    assert_eq!(Some(1), lookup(&table, b"/b"));
    assert_eq!(None, lookup(&table, b"/c"));
    assert_eq!(None, lookup(&vec![], b"/a"));
}

#[test]
fn lookup_compares_paths_component_by_component() {
    let table = vec![row("/home/faux", 1.0, 1)];
    assert_eq!(Some(0), lookup(&table, b"/home/faux/"));
    assert_eq!(Some(0), lookup(&table, b"/home//faux"));
    assert_eq!(None, lookup(&table, b"/home/fau"));
    assert_eq!(None, lookup(&table, b"home/faux"));
}

#[test]
fn do_add_appends_a_new_entry_with_rank_one() {
    let mut table = vec![row("/a", 5.0, 1)];
    do_add(&mut table, b"/b", 77, single(123.0));
    assert_eq!(vec![("/a".to_string(), 5.0, 1), ("/b".to_string(), 1.0, 77)], fields(&table));
}

#[test]
fn do_add_raises_an_entry_that_is_there() {
    let mut table = vec![row("/a", 5.0, 1), row("/b", 2.0, 2)];
    do_add(&mut table, b"/b/", 77, single(3.0));
    assert_eq!(vec![("/a".to_string(), 5.0, 1), ("/b".to_string(), 3.0, 77)], fields(&table));
}

#[test]
fn two_visits_in_a_row_leave_one_entry_of_rank_two() {
    let mut table = Vec::new();
    visit(&mut table, "/a", 10);
    visit(&mut table, "/a", 11);
    assert_eq!(vec![("/a".to_string(), 2.0, 11)], fields(&table));
}

#[test]
fn needs_aging_above_the_ceiling_only() {
    for total in [0.0f32, 1.0, 8999.999, 9000.0, 9000.001, 10000.0, f32::INFINITY, f32::NAN, -1.0] {
        assert_eq!(total > 9000.0, needs_aging(single(total)), "{:?}", total);
    }
    assert!(!needs_aging(single(9000.0)));
    assert!(needs_aging(single(9000.001)));
}

#[test]
fn age_replaces_every_rank_once() {
    let mut table = vec![row("/a", 9000.0, 1), row("/b", 1.0, 2)];
    let decayed = vec![single(9000.0 * 0.99), single(1.0 * 0.99)];
    assert!(age(&mut table, single(9001.0), &decayed));
    assert_eq!(
        vec![("/a".to_string(), 9000.0 * 0.99, 1), ("/b".to_string(), 0.99, 2)],
        fields(&table)
    );
}

#[test]
fn age_leaves_a_light_table_alone() {
    let mut table = vec![row("/a", 8999.0, 1), row("/b", 1.0, 2)];
    let decayed = vec![single(1.0), single(1.0)];
    assert!(!age(&mut table, single(9000.0), &decayed));
    assert_eq!(vec![("/a".to_string(), 8999.0, 1), ("/b".to_string(), 1.0, 2)], fields(&table));
}

#[test]
fn age_keeps_ranks_that_have_no_decayed_value() {
    let mut table = vec![row("/a", 9000.0, 1), row("/b", 5.0, 2)];
    assert!(age(&mut table, single(9005.0), &vec![single(8910.0)]));
    assert_eq!(vec![("/a".to_string(), 8910.0, 1), ("/b".to_string(), 5.0, 2)], fields(&table));
}

#[test]
fn a_visit_that_lifts_the_sum_over_the_ceiling_ages_once() {
    let mut table = vec![row("/a", 8999.5, 1), row("/b", 0.5, 2)];
    visit(&mut table, "/b", 50);
    assert_eq!(
        vec![("/a".to_string(), 8999.5 * 0.99, 1), ("/b".to_string(), 1.5 * 0.99, 50)],
        fields(&table)
    );
}

#[test]
fn clean_removes_what_is_no_directory() {
    let mut table = vec![row("/a", 1.0, 1), row("/b", 2.0, 2), row("/c", 3.0, 3)];
    assert_eq!(2, clean(&mut table, &vec![false, true, false]));
    assert_eq!(vec![("/b".to_string(), 2.0, 2)], fields(&table));
}

#[test]
fn clean_keeps_entries_without_a_flag() {
    let mut table = vec![row("/a", 1.0, 1), row("/b", 2.0, 2)];
    assert_eq!(1, clean(&mut table, &vec![false]));
    assert_eq!(vec![("/b".to_string(), 2.0, 2)], fields(&table));
    assert_eq!(0, clean(&mut table, &vec![]));
    assert_eq!(vec![("/b".to_string(), 2.0, 2)], fields(&table));
}

#[test]
fn cleaning_twice_removes_nothing_the_second_time() {
    let is_dir = |r: &Row| r.path.starts_with(b"/keep");
    let mut table = vec![
        row("/keep/a", 1.0, 1),
        row("/gone", 2.0, 2),
        row("/keep/b", 3.0, 3),
        row("/x", 1.0, 4),
    ];
    let flags: Vec<bool> = table.iter().map(is_dir).collect();
    assert_eq!(2, clean(&mut table, &flags));
    let after = fields(&table);
    let flags: Vec<bool> = table.iter().map(is_dir).collect();
    assert_eq!(0, clean(&mut table, &flags));
    assert_eq!(after, fields(&table));
}
