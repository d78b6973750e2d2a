use std::collections::HashMap;

use bencode::ObservationEvent;
use bencode::watcher::EventType;
use bencode::watcher::FileEvent;
use bencode::watcher::process_move_event;

#[test]
fn process_move_event_inserts_new() {
    let mut cookies = HashMap::new();
    let event = FileEvent {
        cookie: 0,
        event_type: EventType::Modify,
        file_name: String::from("file"),
    };

    match process_move_event(&mut cookies, event) {
        Some(_) => panic!("Value should not be present"),
        _ => assert_eq!(1, cookies.len()),
    }
}

#[test]
fn process_move_event_returns_move_event() {
    let mut cookies = HashMap::new();
    cookies.insert(0, String::from("orig"));

    let event = FileEvent {
        cookie: 0,
        event_type: EventType::Modify,
        file_name: String::from("target"),
    };

    match process_move_event(&mut cookies, event) {
        Some(ObservationEvent::Move { from, to }) => {
            assert_eq!("orig", from);
            assert_eq!("target", to);
        }
        _ => panic!("Must return an event"),
    }

    assert_eq!(0, cookies.len());
}
