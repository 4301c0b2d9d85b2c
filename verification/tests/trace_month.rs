use flights::{
    aircraft_positions, blob_name_to_pk, covers, existing_months_positions,
    existing_months_positions_future, get_month, month_positions, months_in_range, push_month,
    CacheAction, Day, MonthRequest, Position, YearMonth,
};
use std::collections::HashMap;
use time::{Date, Month};

fn month(year: i32, number: u8) -> YearMonth {
    YearMonth::new(year, number).unwrap()
}

fn day(year: i32, number: u8, day: u8) -> Day {
    Date::from_calendar_date(year, Month::try_from(number).unwrap(), day).unwrap().to_julian_day()
}

fn bucket(days: &[(Day, Vec<Position>)]) -> HashMap<Day, Vec<Position>> {
    days.iter().cloned().collect()
}

/// A bucket with every day of the month; day `d` has one grounded sample `(d, tag)`.
fn whole_month(m: &YearMonth, tag: i64) -> HashMap<Day, Vec<Position>> {
    let (from, to) = get_month(m);
    (from..to).map(|d| (d, vec![Position::Grounded(d as i64, tag)])).collect()
}

#[test]
fn days_within_one_month_touch_one_month() {
    for k in 1..=31u8 {
        let months = months_in_range(day(2024, 1, 1), day(2024, 1, 1) + k as i32);
        assert_eq!(months, vec![month(2024, 1)], "{} day(s)", k);
    }
    assert_eq!(months_in_range(day(2024, 2, 10), day(2024, 2, 20)), vec![month(2024, 2)]);
    assert_eq!(months_in_range(day(2024, 2, 29), day(2024, 3, 1)), vec![month(2024, 2)]);
}

#[test]
fn months_are_listed_once_in_order() {
    assert_eq!(
        months_in_range(day(2023, 11, 15), day(2024, 2, 3)),
        vec![month(2023, 11), month(2023, 12), month(2024, 1), month(2024, 2)]
    );
    assert_eq!(
        months_in_range(day(2024, 1, 31), day(2024, 2, 2)),
        vec![month(2024, 1), month(2024, 2)]
    );
}

#[test]
fn empty_range_touches_no_month() {
    assert_eq!(months_in_range(day(2024, 1, 5), day(2024, 1, 5)), vec![]);
    assert_eq!(months_in_range(day(2024, 1, 5), day(2024, 1, 4)), vec![]);
    assert_eq!(months_in_range(i32::MAX, i32::MIN), vec![]);
}

#[test]
fn range_at_the_ends_of_the_calendar() {
    assert_eq!(months_in_range(flights::MIN_DAY, flights::MIN_DAY + 1), vec![month(-9999, 1)]);
    assert_eq!(months_in_range(flights::MAX_DAY, flights::MAX_DAY + 1), vec![month(9999, 12)]);
}

#[test]
fn push_month_keeps_a_list_distinct() {
    let mut months = vec![];
    push_month(&mut months, month(2024, 1));
    push_month(&mut months, month(2024, 2));
    push_month(&mut months, month(2024, 1));
    push_month(&mut months, month(2023, 1));
    push_month(&mut months, month(2024, 2));
    assert_eq!(months, vec![month(2024, 1), month(2024, 2), month(2023, 1)]);
}

#[test]
fn month_request_for_a_past_month() {
    let request = month_positions(&month(2023, 11), "45d2ed", day(2024, 1, 15));
    assert_eq!(
        request,
        MonthRequest {
            key: "database/globe_history/2023-11/trace_full_45d2ed.json".to_string(),
            from: day(2023, 11, 1),
            to: day(2023, 12, 1),
            action: CacheAction::Final,
        }
    );
    assert_eq!(request.to - request.from, 30);
}

#[test]
fn month_request_for_the_current_month() {
    let m = month(2024, 12);
    for today in [day(2024, 12, 1), day(2024, 12, 17), day(2024, 12, 31), day(2024, 11, 30)] {
        let request = month_positions(&m, "a", today);
        assert_eq!(request.action, CacheAction::Refreshable);
        assert_eq!(request.from, day(2024, 12, 1));
        assert_eq!(request.to, day(2025, 1, 1));
        assert_eq!(request.key, "database/globe_history/2024-12/trace_full_a.json");
    }
    assert_eq!(month_positions(&m, "a", day(2025, 1, 1)).action, CacheAction::Final);
    assert_eq!(month_positions(&m, "a", day(2025, 6, 1)).action, CacheAction::Final);
}

#[test]
fn month_request_key_decodes_to_its_bucket() {
    let m = month(2022, 3);
    let request = month_positions(&m, "abc123", day(2024, 1, 1));
    assert_eq!(blob_name_to_pk(&request.key), Some(("abc123".to_string(), m)));
}

#[test]
fn assembled_range_has_exactly_its_days() {
    let buckets = vec![whole_month(&month(2024, 1), 0), whole_month(&month(2024, 2), 0)];
    let (from, to) = (day(2024, 1, 20), day(2024, 2, 10));
    assert!(covers(from, to, &buckets));
    let positions = aircraft_positions(from, to, buckets);
    assert_eq!(positions.len(), 21);
    for d in from..to {
        assert_eq!(positions.get(&d), Some(&vec![Position::Grounded(d as i64, 0)]));
    }
    assert!(!positions.contains_key(&(from - 1)));
    assert!(!positions.contains_key(&to));
}

#[test]
fn assembled_range_keeps_empty_days() {
    let buckets = vec![bucket(&[
        (10, vec![]),
        (11, vec![Position::Flying(1, 2, 3000), Position::Grounded(3, 4)]),
        (12, vec![]),
        (13, vec![Position::Grounded(5, 6)]),
    ])];
    assert!(covers(10, 13, &buckets));
    let positions = aircraft_positions(10, 13, buckets);
    let expected = bucket(&[
        (10, vec![]),
        (11, vec![Position::Flying(1, 2, 3000), Position::Grounded(3, 4)]),
        (12, vec![]),
    ]);
    assert_eq!(positions, expected);
}

#[test]
fn empty_range_assembles_to_nothing() {
    let buckets = vec![bucket(&[(10, vec![Position::Grounded(5, 6)])])];
    assert!(covers(10, 10, &buckets));
    assert!(covers(11, 10, &buckets));
    let none: Vec<HashMap<Day, Vec<Position>>> = vec![];
    assert!(covers(50, 50, &none));
    assert_eq!(aircraft_positions(10, 10, buckets), HashMap::new());
    assert_eq!(aircraft_positions(11, 3, none), HashMap::new());
}

#[test]
fn later_bucket_decides_a_day_held_twice() {
    let buckets = vec![
        bucket(&[(1, vec![Position::Grounded(1, 1)]), (2, vec![Position::Grounded(2, 1)])]),
        bucket(&[(2, vec![Position::Grounded(2, 2)]), (3, vec![Position::Grounded(3, 2)])]),
    ];
    assert!(covers(1, 4, &buckets));
    let positions = aircraft_positions(1, 4, buckets);
    let expected = bucket(&[
        (1, vec![Position::Grounded(1, 1)]),
        (2, vec![Position::Grounded(2, 2)]),
        (3, vec![Position::Grounded(3, 2)]),
    ]);
    assert_eq!(positions, expected);
}

#[test]
fn order_of_the_buckets_does_not_matter_when_months_are_disjoint() {
    let months = [month(2023, 12), month(2024, 1), month(2024, 2)];
    let (from, to) = (day(2023, 12, 25), day(2024, 2, 5));
    let forward: Vec<_> = months.iter().map(|m| whole_month(m, 7)).collect();
    let backward: Vec<_> = months.iter().rev().map(|m| whole_month(m, 7)).collect();
    assert_eq!(aircraft_positions(from, to, forward), aircraft_positions(from, to, backward));
}

#[test]
fn missing_day_is_not_covered() {
    let mut january = whole_month(&month(2024, 1), 0);
    january.remove(&day(2024, 1, 17));
    let buckets = vec![january];
    assert!(!covers(day(2024, 1, 1), day(2024, 2, 1), &buckets));
    assert!(!covers(day(2024, 1, 17), day(2024, 1, 18), &buckets));
    assert!(covers(day(2024, 1, 1), day(2024, 1, 17), &buckets));
    assert!(covers(day(2024, 1, 18), day(2024, 2, 1), &buckets));
    assert!(!covers(day(2024, 1, 31), day(2024, 2, 2), &buckets));
    let none: Vec<HashMap<Day, Vec<Position>>> = vec![];
    assert!(!covers(0, 1, &none));
}

#[test]
fn months_of_a_range_cover_it() {
    let (from, to) = (day(2023, 11, 15), day(2024, 2, 3));
    let buckets: Vec<_> = months_in_range(from, to).iter().map(|m| whole_month(m, 1)).collect();
    assert!(covers(from, to, &buckets));
    let positions = aircraft_positions(from, to, buckets);
    assert_eq!(positions.len() as i32, to - from);
}

#[test]
fn page_of_names_maps_to_its_buckets() {
    let names: Vec<String> = [
        "database/globe_history/2024-01/",
        "database/globe_history/2024-01/trace_full_a0b1c2.json",
        "database/globe_history/2024-01-05/trace_full_a0b1c2.json",
        "database/globe_history/2024-01/trace_full_45d2ed.json",
        "database/globe_history/2024-01/readme.txt",
        "database/globe_history/2024-01/trace_full_a0b1c2.json",
    ]
    .iter()
    .map(|s| s.to_string())
    .collect();
    assert_eq!(
        existing_months_positions_future(&names),
        vec![
            ("a0b1c2".to_string(), month(2024, 1)),
            ("45d2ed".to_string(), month(2024, 1)),
            ("a0b1c2".to_string(), month(2024, 1)),
        ]
    );
    assert_eq!(existing_months_positions_future(&vec![]), vec![]);
}

#[test]
fn pages_are_gathered_without_repeats() {
    let a = ("a0b1c2".to_string(), month(2024, 1));
    let b = ("45d2ed".to_string(), month(2024, 1));
    let c = ("a0b1c2".to_string(), month(2024, 2));
    let pages = vec![
        vec![a.clone(), b.clone()],
        vec![],
        vec![b.clone(), c.clone(), a.clone()],
        vec![c.clone()],
    ];
    assert_eq!(existing_months_positions(&pages), vec![a, b, c]);
    assert_eq!(existing_months_positions(&vec![]), vec![]);
    assert_eq!(existing_months_positions(&vec![vec![], vec![]]), vec![]);
}

#[test]
fn assembler_moves_whatever_the_buckets_hold() {
    let buckets: Vec<HashMap<Day, String>> = vec![
        [(1, "a".to_string()), (2, "b".to_string())].into_iter().collect(),
        [(3, "c".to_string())].into_iter().collect(),
    ];
    assert!(covers(2, 4, &buckets));
    let assembled = aircraft_positions(2, 4, buckets);
    let expected: HashMap<Day, String> =
        [(2, "b".to_string()), (3, "c".to_string())].into_iter().collect();
    assert_eq!(assembled, expected);
}
