use tracker_core::errors::ClientError;
use tracker_core::util::{event_to_string, string_to_event, Event};

#[test]
fn event_string_to_event_good() {
    let s = "started".to_string();
    assert_eq!(string_to_event(s).unwrap(), Event::Started);
}

#[test]
fn event_string_to_event_garbage() {
    let s = "garbage".to_string();
    assert!(
        string_to_event(s).is_err(),
        "String 'garbage' should result in error"
    );
}

#[test]
fn event_event_to_string() {
    let event = Event::Completed;
    assert_eq!(event_to_string(event), "completed");
}

#[test]
fn event_string_to_event_stopped_and_completed() {
    assert_eq!(string_to_event("stopped".to_string()).unwrap(), Event::Stopped);
    assert_eq!(string_to_event("completed".to_string()).unwrap(), Event::Completed);
}

#[test]
fn event_string_to_event_empty_is_unspecified() {
    assert_eq!(string_to_event(String::new()).unwrap(), Event::Unspecified);
}

#[test]
fn event_garbage_is_malformed_announce() {
    assert_eq!(
        string_to_event("paused".to_string()).unwrap_err(),
        ClientError::MalformedAnnounce
    );
}
