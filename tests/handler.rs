use cronic::{EventHandler, NewEvent};
use rusqlite::Connection;

fn generate_events(source: &str, code: i32, n: i32) -> Vec<NewEvent> {
    let mut events = Vec::new();
    for i in 1..n {
        events.push(NewEvent {
            code,
            source: source.to_string(),
            output: format!("out{:04}", i),
            date: "2024-03-01T12:00:00Z".to_string(),
        });
    }
    events
}

#[test]
fn save_and_recall_single_event_by_source_id() {
    let conn = Connection::open_in_memory().unwrap();
    let event_handler = EventHandler::build(conn).unwrap();
    let expected_output = generate_events("test_source", 1, 0);

    for event in &expected_output {
        event_handler.save(event).unwrap();
    }

    let events = event_handler.get_all_events_by_source("test_source").unwrap();
    assert_eq!(events.len(), expected_output.len());
}

#[test]
fn save_and_recall_multiple_events_by_source_id() {
    let conn = Connection::open_in_memory().unwrap();
    let event_handler = EventHandler::build(conn).unwrap();
    let expected_output = generate_events("test_source", 1, 2);
    let extra_events = generate_events("test_source_2", 1, 2);

    for event in &expected_output {
        event_handler.save(event).unwrap();
    }
    for event in &extra_events {
        event_handler.save(event).unwrap();
    }

    let events = event_handler.get_all_events_by_source("test_source").unwrap();
    assert_eq!(events.len(), expected_output.len());
    for (expected, actual) in expected_output.iter().zip(events.iter()) {
        assert_eq!(actual.source, expected.source);
        assert_eq!(actual.code, expected.code);
        assert_eq!(actual.output, expected.output);
        assert_eq!(actual.date, expected.date);
    }
}

#[test]
fn get_sources() {
    let conn = Connection::open_in_memory().unwrap();
    let event_handler = EventHandler::build(conn).unwrap();
    let events_set_1 = generate_events("test_source", 1, 2);
    let events_set_2 = generate_events("test_source_2", 1, 2);
    let expected_output = vec!["test_source", "test_source_2"];

    for event in &events_set_1 {
        event_handler.save(event).unwrap();
    }
    for event in &events_set_2 {
        event_handler.save(event).unwrap();
    }

    let actual: Vec<String> = event_handler.get_sources().unwrap();
    assert_eq!(actual, expected_output);
}

#[test]
fn handler_refuses_empty_source() {
    let event_handler = EventHandler::build(Connection::open_in_memory().unwrap()).unwrap();
    let bad = NewEvent { source: String::new(), code: 0, output: String::new(), date: String::new() };
    assert_eq!(event_handler.save(&bad), Err(cronic::StoreError::WriteFailure));
    assert!(event_handler.get_sources().unwrap().is_empty());
}
