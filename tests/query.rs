use cronic::order::{bytes_before, is_newer};
use cronic::query::{
    check_ids_ascending, distinct_sources, events_of_source, find_by_id, recent_by_source,
};
use cronic::repo::{answer_by_id, checked_rows, events_of_rows};
use cronic::StoreError;
use cronic::Event;

fn ev(id: i64, source: &str, code: i32, date: &str) -> Event {
    Event { id, source: source.to_string(), code, output: format!("o{}", id), date: date.to_string() }
}

fn sample() -> Vec<Event> {
    vec![
        ev(1, "a", 0, "2024-01-05"),
        ev(2, "b", 1, "2024-01-01"),
        ev(3, "a", 2, "2024-01-07"),
        ev(5, "c", 3, "2024-01-02"),
        ev(8, "a", 4, "2024-01-06"),
        ev(9, "b", 5, "2024-01-01"),
    ]
}

#[test]
fn bytes_before_is_lexicographic() {
    assert!(bytes_before(b"2024-01-01", b"2024-01-02"));
    assert!(!bytes_before(b"2024-01-02", b"2024-01-01"));
    assert!(!bytes_before(b"abc", b"abc"));
    assert!(bytes_before(b"ab", b"abc"));
    assert!(!bytes_before(b"abc", b"ab"));
    assert!(bytes_before(b"", b"a"));
    assert!(!bytes_before(b"", b""));
}

#[test]
fn newer_prefers_later_date_then_smaller_id() {
    assert!(is_newer(&ev(1, "a", 0, "2024-02"), &ev(2, "a", 0, "2024-01")));
    assert!(!is_newer(&ev(2, "a", 0, "2024-01"), &ev(1, "a", 0, "2024-02")));
    assert!(is_newer(&ev(1, "a", 0, "2024-01"), &ev(2, "a", 0, "2024-01")));
    assert!(!is_newer(&ev(2, "a", 0, "2024-01"), &ev(1, "a", 0, "2024-01")));
}

#[test]
fn ascending_ids_are_checked() {
    assert!(check_ids_ascending(&sample()));
    assert!(check_ids_ascending(&vec![]));
    assert!(!check_ids_ascending(&vec![ev(2, "a", 0, ""), ev(2, "a", 0, "")]));
    assert!(!check_ids_ascending(&vec![ev(3, "a", 0, ""), ev(1, "a", 0, "")]));
}

#[test]
fn find_by_id_finds_the_row() {
    let rows = sample();
    assert_eq!(find_by_id(&rows, 5), Some(ev(5, "c", 3, "2024-01-02")));
    assert_eq!(find_by_id(&rows, 4), None);
    assert_eq!(find_by_id(&vec![], 999), None);
}

#[test]
fn events_of_source_keeps_row_order() {
    let rows = sample();
    let ids: Vec<i64> = events_of_source(&rows, "a").iter().map(|e| e.id).collect();
    assert_eq!(ids, vec![1, 3, 8]);
    assert!(events_of_source(&rows, "zzz").is_empty());
}

#[test]
fn distinct_sources_in_first_row_order() {
    assert_eq!(distinct_sources(&sample()), vec!["a".to_string(), "b".to_string(), "c".to_string()]);
    assert!(distinct_sources(&vec![]).is_empty());
}

#[test]
fn recent_by_source_on_rows() {
    let groups = recent_by_source(&sample(), 2);
    let shape: Vec<(String, Vec<i64>)> =
        groups.iter().map(|g| (g.source.clone(), g.events.iter().map(|e| e.id).collect())).collect();
    assert_eq!(
        shape,
        vec![
            ("a".to_string(), vec![3, 8]),
            ("b".to_string(), vec![2, 9]),
            ("c".to_string(), vec![5]),
        ]
    );
    assert!(recent_by_source(&sample(), 0).is_empty());
    assert!(recent_by_source(&vec![], 3).is_empty());
}

#[test]
fn rows_become_events_field_for_field() {
    let rows = vec![(7i64, "s".to_string(), -1i32, "out".to_string(), "d".to_string())];
    assert_eq!(events_of_rows(&rows), vec![Event {
        id: 7,
        source: "s".to_string(),
        code: -1,
        output: "out".to_string(),
        date: "d".to_string(),
    }]);
}

#[test]
fn checked_rows_accepts_ascending_ids() {
    let raw = vec![
        (1i64, "a".to_string(), 0i32, "x".to_string(), "d1".to_string()),
        (4i64, "b".to_string(), 2i32, "y".to_string(), "d2".to_string()),
    ];
    assert_eq!(
        checked_rows(&raw),
        Ok(vec![
            Event { id: 1, source: "a".to_string(), code: 0, output: "x".to_string(), date: "d1".to_string() },
            Event { id: 4, source: "b".to_string(), code: 2, output: "y".to_string(), date: "d2".to_string() },
        ])
    );
    assert_eq!(checked_rows(&vec![]), Ok(vec![]));
}

#[test]
fn checked_rows_refuses_rows_out_of_order() {
    let raw = vec![
        (4i64, "a".to_string(), 0i32, String::new(), String::new()),
        (1i64, "b".to_string(), 0i32, String::new(), String::new()),
    ];
    assert_eq!(checked_rows(&raw), Err(StoreError::QueryFailure));
    let dup = vec![
        (2i64, "a".to_string(), 0i32, String::new(), String::new()),
        (2i64, "a".to_string(), 0i32, String::new(), String::new()),
    ];
    assert_eq!(checked_rows(&dup), Err(StoreError::QueryFailure));
}

#[test]
fn answer_by_id_finds_or_reports_not_found() {
    let rows = sample();
    assert_eq!(answer_by_id(&rows, 8), Ok(ev(8, "a", 4, "2024-01-06")));
    assert_eq!(answer_by_id(&rows, 7), Err(StoreError::NotFound));
    assert_eq!(answer_by_id(&vec![], 1), Err(StoreError::NotFound));
}
