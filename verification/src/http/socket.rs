//! The life of one connection, as the decisions that it takes.
//!
//! Reading from and writing to a socket happen elsewhere. What happened
//! comes in as an event, and what is to happen next goes out as an action:
//! read, hand the request on, write, or close.

use crate::http::request::{parsed, Request, RequestBuffer, RequestView};
use crate::http::response::{brief, encodes, Response, ResponseView};
use vstd::prelude::*;

verus! {

/// How many seconds the first read and the first write of a connection may
/// take.
pub const TIMEOUT_SECONDS: u64 = 5;

/// How often a read that failed is tried again, and how often the answer to
/// a write that failed is written.
pub const RETRIES: u8 = 5;

/// Where a connection stands.
#[derive(Debug, Clone, Copy, PartialEq, Eq, Structural)]
pub enum Connection {
    /// A read is under way, after `failures` reads that failed.
    Reading { failures: u8 },
    /// The request is with the routes.
    Handling,
    /// The first write of the response is under way.
    Writing,
    /// The response could not be written. A response with this status takes
    /// its place and is being written, after `failures` writes of it that
    /// failed.
    Rewriting { status: u16, failures: u8 },
    /// Nothing more happens.
    Closed,
}

/// What happened on a connection.
#[derive(Debug)]
pub enum Event {
    /// A read put `count` bytes into the buffer.
    Read { buffer: RequestBuffer, count: usize },
    /// A read failed.
    ReadFailed,
    /// A read did not end in time.
    ReadTimedOut,
    /// The routes answered, or had nothing to answer with.
    Handled(Option<Response>),
    /// A write went through.
    Written,
    /// A write failed.
    WriteFailed,
    /// A write did not end in time.
    WriteTimedOut,
}

/// What is to happen next on a connection.
#[derive(Debug)]
pub enum Action {
    /// Read into a fresh buffer, within the time limit if `timed`.
    Read { timed: bool },
    /// Hand the request to the routes.
    Handle(Request),
    /// Write the bytes, within the time limit if `timed`.
    Write { bytes: Vec<u8>, timed: bool },
    /// Close the connection.
    Close,
}

/// What is to happen next, in contracts.
#[verifier::ext_equal]
pub enum Decision {
    Read { timed: bool },
    Handle(RequestView),
    Send { response: ResponseView, timed: bool },
    Close,
}

/// Whether an action does what a decision asks for. Bytes do so for a
/// response when they are that response on the wire, with its headers in any
/// order.
pub open spec fn carries(action: Action, decision: Decision) -> bool {
    match (action, decision) {
        (Action::Read { timed: a }, Decision::Read { timed: b }) => a == b,
        (Action::Handle(request), Decision::Handle(view)) => request@ == view,
        (Action::Write { bytes, timed: a }, Decision::Send { response, timed: b }) => a == b
            && encodes(response, bytes@),
        (Action::Close, Decision::Close) => true,
        _ => false,
    }
}

/// The response that takes the place of one that could not be written.
pub open spec fn replacement(status: u16) -> ResponseView {
    if status == 408 {
        brief(408, "Request Timeout"@)
    } else {
        brief(500, "failed to write to socket"@)
    }
}

/// What follows a read that filled the buffer with `count` bytes: nothing
/// read is answered with status 500, a request that cannot be read with the
/// response that says why, and any other request goes to the routes.
pub open spec fn after_read(buffer: Seq<u8>, count: usize) -> (Connection, Decision) {
    if count == 0 {
        (
            Connection::Writing,
            Decision::Send {
                response: brief(500, "Read 0 bytes from client connection"@),
                timed: true,
            },
        )
    } else {
        match parsed(buffer).error {
            Some(response) => (Connection::Writing, Decision::Send { response, timed: true }),
            None => (Connection::Handling, Decision::Handle(parsed(buffer).request)),
        }
    }
}

/// The state that follows a state on an event, and what is to happen next.
/// An event that cannot happen in a state closes the connection.
pub open spec fn decision(state: Connection, event: Event) -> (Connection, Decision) {
    match state {
        Connection::Reading { failures } => match event {
            Event::Read { buffer, count } => after_read(buffer@, count),
            Event::ReadFailed => if failures < RETRIES {
                (
                    Connection::Reading { failures: (failures + 1) as u8 },
                    Decision::Read { timed: false },
                )
            } else {
                (
                    Connection::Writing,
                    Decision::Send {
                        response: brief(500, "unable to read client socket"@),
                        timed: true,
                    },
                )
            },
            Event::ReadTimedOut => (
                Connection::Writing,
                Decision::Send { response: brief(408, "request timeout"@), timed: true },
            ),
            _ => (Connection::Closed, Decision::Close),
        },
        Connection::Handling => match event {
            Event::Handled(Some(response)) => (
                Connection::Writing,
                Decision::Send { response: response@, timed: true },
            ),
            Event::Handled(None) => (
                Connection::Writing,
                Decision::Send { response: brief(500, "Failed to handle request"@), timed: true },
            ),
            _ => (Connection::Closed, Decision::Close),
        },
        Connection::Writing => match event {
            Event::WriteFailed => (
                Connection::Rewriting { status: 500, failures: 0 },
                Decision::Send { response: replacement(500), timed: false },
            ),
            Event::WriteTimedOut => (
                Connection::Rewriting { status: 408, failures: 0 },
                Decision::Send { response: replacement(408), timed: false },
            ),
            _ => (Connection::Closed, Decision::Close),
        },
        Connection::Rewriting { status, failures } => match event {
            Event::WriteFailed => if failures + 1 < RETRIES {
                (
                    Connection::Rewriting { status, failures: (failures + 1) as u8 },
                    Decision::Send { response: replacement(status), timed: false },
                )
            } else {
                (Connection::Closed, Decision::Close)
            },
            _ => (Connection::Closed, Decision::Close),
        },
        Connection::Closed => (Connection::Closed, Decision::Close),
    }
}

/// The action that writes a response.
fn send(response: Response, timed: bool) -> (out: Action)
    ensures
        carries(out, (Decision::Send { response: response@, timed })),
{
    Action::Write { bytes: response.to_bytes(), timed }
}

/// The action that writes the response which takes the place of one that
/// could not be written.
fn send_replacement(status: u16) -> (out: Action)
    ensures
        carries(out, (Decision::Send { response: replacement(status), timed: false })),
{
    if status == 408 {
        send(Response::new().status(408).body("Request Timeout"), false)
    } else {
        send(Response::new().status(500).body("failed to write to socket"), false)
    }
}

impl Connection {
    /// A connection that was just accepted, and its first action: a read
    /// within the time limit.
    pub fn accept() -> (out: (Connection, Action))
        ensures
            out.0 == (Connection::Reading { failures: 0 }),
            out.1 matches Action::Read { timed } && timed,
    {
        (Connection::Reading { failures: 0 }, Action::Read { timed: true })
    }

    /// The state that follows on an event, and the action to take.
    pub fn step(self, event: Event) -> (out: (Connection, Action))
        ensures
            out.0 == decision(self, event).0,
            carries(out.1, decision(self, event).1),
    {
        match self {
            Connection::Reading { failures } => match event {
                Event::Read { buffer, count } => {
                    if count == 0 {
                        let response = Response::new().status(500).body(
                            "Read 0 bytes from client connection",
                        );
                        (Connection::Writing, send(response, true))
                    } else {
                        let (request, response) = Request::new_from_bytes(buffer);
                        match response {
                            Some(response) => (Connection::Writing, send(response, true)),
                            None => (Connection::Handling, Action::Handle(request)),
                        }
                    }
                },
                Event::ReadFailed => {
                    if failures < RETRIES {
                        (Connection::Reading { failures: failures + 1 }, Action::Read { timed: false })
                    } else {
                        let response = Response::new().status(500).body(
                            "unable to read client socket",
                        );
                        (Connection::Writing, send(response, true))
                    }
                },
                Event::ReadTimedOut => {
                    let response = Response::new().status(408).body("request timeout");
                    (Connection::Writing, send(response, true))
                },
                _ => (Connection::Closed, Action::Close),
            },
            Connection::Handling => match event {
                Event::Handled(Some(response)) => (Connection::Writing, send(response, true)),
                Event::Handled(None) => {
                    let response = Response::new().status(500).body("Failed to handle request");
                    (Connection::Writing, send(response, true))
                },
                _ => (Connection::Closed, Action::Close),
            },
            Connection::Writing => match event {
                Event::WriteFailed => (
                    Connection::Rewriting { status: 500, failures: 0 },
                    send_replacement(500),
                ),
                Event::WriteTimedOut => (
                    Connection::Rewriting { status: 408, failures: 0 },
                    send_replacement(408),
                ),
                _ => (Connection::Closed, Action::Close),
            },
            Connection::Rewriting { status, failures } => match event {
                Event::WriteFailed => {
                    if failures < RETRIES - 1 {
                        (
                            Connection::Rewriting { status, failures: failures + 1 },
                            send_replacement(status),
                        )
                    } else {
                        (Connection::Closed, Action::Close)
                    }
                },
                _ => (Connection::Closed, Action::Close),
            },
            Connection::Closed => (Connection::Closed, Action::Close),
        }
    }
}

/// How many steps a connection has left at most before it is closed.
pub open spec fn steps_left(state: Connection) -> nat {
    match state {
        Connection::Reading { failures } => if failures <= RETRIES {
            (8 + RETRIES - failures) as nat
        } else {
            8
        },
        Connection::Handling => 7,
        Connection::Writing => 6,
        Connection::Rewriting { status, failures } => if failures < RETRIES {
            (RETRIES - failures) as nat
        } else {
            1
        },
        Connection::Closed => 0,
    }
}

/// Every step brings a connection nearer to its end, whatever happens: no
/// read and no write is tried again for ever, and after thirteen steps at
/// most the connection is closed.
pub proof fn lemma_connection_ends(state: Connection, event: Event)
    ensures
        steps_left(state) <= 13,
        state != Connection::Closed ==> steps_left(decision(state, event).0) < steps_left(state),
        state == Connection::Closed ==> decision(state, event).0 == Connection::Closed,
{
}

/// A connection is closed exactly when nothing more is to be done on it.
pub proof fn lemma_closed_means_close(state: Connection, event: Event)
    ensures
        decision(state, event).0 == Connection::Closed <==> decision(state, event).1 is Close,
{
}

} // verus!
