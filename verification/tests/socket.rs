use zeke::http::response::Response;
use zeke::http::socket::{Action, Connection, Event, RETRIES, TIMEOUT_SECONDS};

fn buffer_of(text: &str) -> [u8; 1024] {
    let mut bytes = [0u8; 1024];
    bytes[..text.len()].copy_from_slice(text.as_bytes());
    bytes
}

fn written(action: Action, timed: bool) -> Response {
    match action {
        Action::Write { bytes, timed: within } => {
            assert_eq!(within, timed);
            Response::new_from_bytes(&bytes)
        }
        other => panic!("no write: {:?}", other),
    }
}

#[test]
fn the_limits_are_five() {
    assert_eq!(TIMEOUT_SECONDS, 5);
    assert_eq!(RETRIES, 5);
}

#[test]
fn a_connection_starts_with_a_timed_read() {
    let (connection, action) = Connection::accept();
    assert_eq!(connection, Connection::Reading { failures: 0 });
    assert!(matches!(action, Action::Read { timed: true }));
}

#[test]
fn a_request_that_was_read_goes_to_the_routes() {
    let text = "GET /x?a=1 HTTP/1.1\r\nHost: localhost\r\n\r\nbody";
    let (connection, action) = Connection::accept().0.step(Event::Read { buffer: buffer_of(text), count: text.len() });
    assert_eq!(connection, Connection::Handling);
    match action {
        Action::Handle(request) => {
            assert_eq!(request.method_and_path, "GET /x");
            assert_eq!(request.body, "body");
            assert_eq!(request.get_header("Host"), " localhost");
        }
        other => panic!("no request: {:?}", other),
    }
}

#[test]
fn a_request_that_cannot_be_read_is_answered_at_once() {
    let text = "GE / HTTP/1.1\r\n\r\n";
    let (connection, action) = Connection::accept().0.step(Event::Read { buffer: buffer_of(text), count: text.len() });
    assert_eq!(connection, Connection::Writing);
    let response = written(action, true);
    assert_eq!(response.status, 400);
    assert_eq!(response.body, "malformed request: method was extracted but found to be invalid");
}

#[test]
fn a_read_of_nothing_is_answered_with_500() {
    let (connection, action) = Connection::accept().0.step(Event::Read { buffer: [0u8; 1024], count: 0 });
    assert_eq!(connection, Connection::Writing);
    let response = written(action, true);
    assert_eq!(response.status, 500);
    assert_eq!(response.body, "Read 0 bytes from client connection");
}

#[test]
fn a_read_that_takes_too_long_is_answered_with_408() {
    let (connection, action) = Connection::accept().0.step(Event::ReadTimedOut);
    assert_eq!(connection, Connection::Writing);
    let response = written(action, true);
    assert_eq!(response.status, 408);
    assert_eq!(response.body, "request timeout");
    assert_eq!(response.get_header("Content-Length"), "15");
}

#[test]
fn a_read_that_fails_is_tried_five_times_more() {
    let mut connection = Connection::accept().0;
    for failures in 1..=5u8 {
        let (next, action) = connection.step(Event::ReadFailed);
        assert_eq!(next, Connection::Reading { failures });
        assert!(matches!(action, Action::Read { timed: false }));
        connection = next;
    }
    let (connection, action) = connection.step(Event::ReadFailed);
    assert_eq!(connection, Connection::Writing);
    let response = written(action, true);
    assert_eq!(response.status, 500);
    assert_eq!(response.body, "unable to read client socket");
}

#[test]
fn a_read_that_goes_through_after_failures_is_read() {
    let text = "GET / HTTP/1.1";
    let (connection, _) = Connection::accept().0.step(Event::ReadFailed);
    let (connection, _) = connection.step(Event::ReadFailed);
    let (connection, action) = connection.step(Event::Read { buffer: buffer_of(text), count: text.len() });
    assert_eq!(connection, Connection::Handling);
    assert!(matches!(action, Action::Handle(_)));
}

#[test]
fn the_answer_of_the_routes_is_written() {
    let response = Response::new().status(201).body("made").set_header("A", "b");
    let (connection, action) = Connection::Handling.step(Event::Handled(Some(response)));
    assert_eq!(connection, Connection::Writing);
    let back = written(action, true);
    assert_eq!(back.status, 201);
    assert_eq!(back.body, "made");
    assert_eq!(back.get_header("A"), "b");
}

#[test]
fn routes_without_an_answer_give_a_500() {
    let (connection, action) = Connection::Handling.step(Event::Handled(None));
    assert_eq!(connection, Connection::Writing);
    let response = written(action, true);
    assert_eq!(response.status, 500);
    assert_eq!(response.body, "Failed to handle request");
}

#[test]
fn a_write_that_goes_through_closes_the_connection() {
    let (connection, action) = Connection::Writing.step(Event::Written);
    assert_eq!(connection, Connection::Closed);
    assert!(matches!(action, Action::Close));
    let (connection, action) = Connection::Rewriting { status: 500, failures: 2 }.step(Event::Written);
    assert_eq!(connection, Connection::Closed);
    assert!(matches!(action, Action::Close));
}

#[test]
fn a_write_that_fails_is_answered_with_500() {
    let (connection, action) = Connection::Writing.step(Event::WriteFailed);
    assert_eq!(connection, Connection::Rewriting { status: 500, failures: 0 });
    let response = written(action, false);
    assert_eq!(response.status, 500);
    assert_eq!(response.body, "failed to write to socket");
}

#[test]
fn a_write_that_takes_too_long_is_answered_with_408() {
    let (connection, action) = Connection::Writing.step(Event::WriteTimedOut);
    assert_eq!(connection, Connection::Rewriting { status: 408, failures: 0 });
    let response = written(action, false);
    assert_eq!(response.status, 408);
    assert_eq!(response.body, "Request Timeout");
}

#[test]
fn the_answer_to_a_failed_write_is_written_five_times_at_most() {
    for status in [500u16, 408] {
        let event = if status == 500 { Event::WriteFailed } else { Event::WriteTimedOut };
        let (mut connection, action) = Connection::Writing.step(event);
        let mut writes = 0;
        let mut action = Some(action);
        while let Some(Action::Write { bytes, timed }) = action.take() {
            writes += 1;
            assert!(!timed);
            assert_eq!(Response::new_from_bytes(&bytes).status, status);
            let next = connection.step(Event::WriteFailed);
            connection = next.0;
            action = Some(next.1);
        }
        assert_eq!(writes, 5);
        assert_eq!(connection, Connection::Closed);
    }
}

#[test]
fn a_closed_connection_stays_closed() {
    let events = [
        Event::Read { buffer: buffer_of("GET / HTTP/1.1"), count: 14 },
        Event::ReadFailed,
        Event::ReadTimedOut,
        Event::Handled(None),
        Event::Handled(Some(Response::new())),
        Event::Written,
        Event::WriteFailed,
        Event::WriteTimedOut,
    ];
    for event in events {
        let (connection, action) = Connection::Closed.step(event);
        assert_eq!(connection, Connection::Closed);
        assert!(matches!(action, Action::Close));
    }
}

#[test]
fn what_cannot_happen_closes_the_connection() {
    let (connection, action) = Connection::Reading { failures: 0 }.step(Event::Written);
    assert_eq!(connection, Connection::Closed);
    assert!(matches!(action, Action::Close));
    let (connection, action) = Connection::Handling.step(Event::ReadFailed);
    assert_eq!(connection, Connection::Closed);
    assert!(matches!(action, Action::Close));
    let (connection, action) = Connection::Writing.step(Event::Handled(None));
    assert_eq!(connection, Connection::Closed);
    assert!(matches!(action, Action::Close));
    let (connection, action) = Connection::Rewriting { status: 500, failures: 0 }.step(Event::WriteTimedOut);
    assert_eq!(connection, Connection::Closed);
    assert!(matches!(action, Action::Close));
}

#[test]
fn every_connection_closes_within_thirteen_steps() {
    let mut connection = Connection::accept().0;
    let mut steps = 0;
    while connection != Connection::Closed {
        let event = match connection {
            Connection::Reading { .. } => Event::ReadFailed,
            Connection::Handling => Event::Handled(None),
            Connection::Writing => Event::WriteFailed,
            Connection::Rewriting { .. } => Event::WriteFailed,
            Connection::Closed => unreachable!(),
        };
        connection = connection.step(event).0;
        steps += 1;
    }
    assert_eq!(steps, 12);
}
