use std::collections::HashMap;

use cronic::{Event, NewEvent, Repo, SourceEvents};

const DATE: &str = "2024-03-01T12:00:00Z";

fn generate_events(source: &str, start: i64, end: i64) -> Vec<Event> {
    let mut events = Vec::new();
    for i in start..end {
        events.push(Event {
            id: i,
            code: 1,
            source: source.to_string(),
            output: format!("output_{}_{}", source, i),
            date: DATE.to_string(),
        });
    }
    events
}

fn inputs_of(events: &[Event]) -> Vec<NewEvent> {
    events
        .iter()
        .map(|e| NewEvent {
            source: e.source.clone(),
            code: e.code,
            output: e.output.clone(),
            date: e.date.clone(),
        })
        .collect()
}

fn as_map(groups: Vec<SourceEvents>) -> HashMap<String, Vec<Event>> {
    groups.into_iter().map(|g| (g.source, g.events)).collect()
}

#[test]
fn save_events_and_query_by_source_id() {
    let event_handler = Repo::open(":memory:").unwrap();
    let events_set_1 = generate_events("set_1", 1, 4);
    let events_set_2 = generate_events("set_2", 1, 4);

    event_handler.save_batch(&inputs_of(&events_set_1)).unwrap();
    event_handler.save_batch(&inputs_of(&events_set_2)).unwrap();

    let events: Vec<Event> = event_handler.get_all_events_by_source("set_1").unwrap();
    assert_eq!(events.len(), events_set_1.len());
    for (expected, actual) in events_set_1.iter().zip(events.iter()) {
        assert_eq!(actual, expected);
    }
}

#[test]
fn query_events_by_source() {
    let event_handler = Repo::open(":memory:").unwrap();
    let events_set_1 = generate_events("test_source", 1, 3);
    let events_set_2 = generate_events("test_source_2", 1, 3);
    let expected_output = vec!["test_source", "test_source_2"];

    event_handler.save_batch(&inputs_of(&events_set_1)).unwrap();
    event_handler.save_batch(&inputs_of(&events_set_2)).unwrap();

    let actual: Vec<String> = event_handler.get_sources().unwrap();
    assert_eq!(actual, expected_output);
}

#[test]
fn get_event_by_id() {
    let event_handler = Repo::open(":memory:").unwrap();
    let events_set_1 = generate_events("set_1", 1, 2);

    event_handler.save_batch(&inputs_of(&events_set_1)).unwrap();

    let event: Event = event_handler.get_event_by_id(1).unwrap();
    assert_eq!(event, events_set_1[0]);
}

#[test]
fn get_all_events_grouped_by_source() {
    let event_handler = Repo::open(":memory:").unwrap();
    let events_set_1 = generate_events("set_1", 1, 3);
    let events_set_2 = generate_events("set_2", 3, 5);
    let mut expected_output: HashMap<String, Vec<Event>> = HashMap::new();
    expected_output.insert(String::from("set_1"), generate_events("set_1", 1, 3));
    expected_output.insert(String::from("set_2"), generate_events("set_2", 3, 5));

    event_handler.save_batch(&inputs_of(&events_set_1)).unwrap();
    event_handler.save_batch(&inputs_of(&events_set_2)).unwrap();

    let actual = as_map(event_handler.get_all_events_grouped_by_source(99).unwrap());
    assert_eq!(actual, expected_output);
}
