//! One client connection as a state machine: what to do next, given what the
//! socket just did. The caller owns the socket, performs each action and
//! reports what came of it.

use vstd::prelude::*;
use crate::buffer::{
    buffer_advance, buffer_as_slice, buffer_bytes, buffer_extend, buffer_with_capacity,
};
use crate::command::{handle_request, reply_to};
use crate::encode::encode;
use crate::parse::{parse_message, parse_spec, ParseResult, ParseView};

verus! {

/// Room that a fresh connection's buffer has.
pub const INITIAL_CAPACITY: usize = 512;

/// Where a connection stands.
#[derive(Clone, Copy, Debug, PartialEq, Eq, Structural)]
pub enum State {
    /// No whole request is buffered; the next thing to do is to read.
    AwaitingData,
    /// A reply was handed out and is being written.
    Writing,
    /// The connection is over.
    Closed,
}

/// What the socket did.
#[derive(Debug, PartialEq, Eq)]
pub enum Event {
    /// A read returned these bytes; none at all means that the peer closed.
    Read(Vec<u8>),
    /// The reply that was handed out is written.
    Written,
    /// A read or a write failed.
    Failed,
}

/// What to do with the socket next.
#[derive(Debug, PartialEq, Eq)]
pub enum Action {
    /// Read more bytes.
    Read,
    /// Write these bytes, the reply to one request.
    Write(Vec<u8>),
    /// Close the socket.
    Close,
}

/// The model of an [`Event`].
pub enum EventView {
    Read(Seq<u8>),
    Written,
    Failed,
}

/// The model of an [`Action`].
pub enum ActionView {
    Read,
    Write(Seq<u8>),
    Close,
}

impl View for Event {
    type V = EventView;

    open spec fn view(&self) -> EventView {
        match self {
            Event::Read(data) => EventView::Read(data@),
            Event::Written => EventView::Written,
            Event::Failed => EventView::Failed,
        }
    }
}

impl View for Action {
    type V = ActionView;

    open spec fn view(&self) -> ActionView {
        match self {
            Action::Read => ActionView::Read,
            Action::Write(bytes) => ActionView::Write(bytes@),
            Action::Close => ActionView::Close,
        }
    }
}

/// A connection as the contracts see it: its state and the bytes that were
/// read and not yet taken by a request.
pub struct ConnectionView {
    pub state: State,
    pub pending: Seq<u8>,
}

/// One attempt to take a request off the front of the pending bytes. A whole
/// frame leaves the buffer and its reply is to be written; what follows it
/// stays. A frame that is not whole yet leaves the buffer as it is and asks
/// for a read. Bytes that can start no frame end the connection.
pub open spec fn take_request(pending: Seq<u8>) -> (ConnectionView, ActionView) {
    match parse_spec(pending) {
        ParseView::Parsed(v, consumed) => (
            ConnectionView { state: State::Writing, pending: pending.skip(consumed) },
            ActionView::Write(encode(reply_to(v))),
        ),
        ParseView::Incomplete => (
            ConnectionView { state: State::AwaitingData, pending },
            ActionView::Read,
        ),
        ParseView::Malformed(_) => (
            ConnectionView { state: State::Closed, pending },
            ActionView::Close,
        ),
    }
}

/// The transition function. A closed connection stays closed. A failure
/// closes, and so does a read without bytes: the peer has closed. Bytes that
/// were read go behind the pending ones, and a request is looked for. After
/// a write the next request is looked for in what is pending. Pending bytes
/// beyond what one allocation can hold close the connection.
pub open spec fn step(conn: ConnectionView, event: EventView) -> (ConnectionView, ActionView) {
    let closed = (ConnectionView { state: State::Closed, pending: conn.pending }, ActionView::Close);
    if conn.state == State::Closed {
        closed
    } else {
        match event {
            EventView::Failed => closed,
            EventView::Written => take_request(conn.pending),
            EventView::Read(data) => if data.len() == 0 || conn.pending.len() + data.len()
                > isize::MAX {
                closed
            } else {
                take_request(conn.pending + data)
            },
        }
    }
}

/// The state of one client connection.
pub struct Connection {
    state: State,
    buffer: bytes::BytesMut,
}

impl View for Connection {
    type V = ConnectionView;

    closed spec fn view(&self) -> ConnectionView {
        ConnectionView { state: self.state, pending: buffer_bytes(self.buffer) }
    }
}

impl Connection {
    /// A connection that has read nothing yet.
    pub fn new() -> (conn: Connection)
        ensures
            conn@ == (ConnectionView { state: State::AwaitingData, pending: Seq::empty() }),
    {
        Connection { state: State::AwaitingData, buffer: buffer_with_capacity(INITIAL_CAPACITY) }
    }

    /// Where the connection stands.
    pub fn state(&self) -> (s: State)
        ensures
            s == self@.state,
    {
        self.state
    }

    /// The bytes that were read and not yet taken by a request.
    pub fn pending(&self) -> (bytes: &[u8])
        ensures
            bytes@ == self@.pending,
    {
        buffer_as_slice(&self.buffer)
    }

    fn close(&mut self) -> (action: Action)
        ensures
            final(self)@ == (ConnectionView { state: State::Closed, pending: old(self)@.pending }),
            action == Action::Close,
    {
        self.state = State::Closed;
        Action::Close
    }

    /// Puts bytes that were read behind the pending ones, unless the whole
    /// would pass what one allocation can hold; says whether it did.
    pub fn feed(&mut self, data: &[u8]) -> (accepted: bool)
        ensures
            accepted == (old(self)@.pending.len() + data@.len() <= isize::MAX),
            final(self)@.state == old(self)@.state,
            final(self)@.pending == if accepted {
                old(self)@.pending + data@
            } else {
                old(self)@.pending
            },
    {
        let held: usize = buffer_as_slice(&self.buffer).len();
        if held > isize::MAX as usize || data.len() > isize::MAX as usize - held {
            false
        } else {
            buffer_extend(&mut self.buffer, data);
            true
        }
    }

    /// Parses the pending bytes from their start. A whole frame leaves the
    /// buffer, what follows it stays; otherwise the buffer stays as it is.
    pub fn take_value(&mut self) -> (r: ParseResult)
        ensures
            r@ == parse_spec(old(self)@.pending),
            final(self)@.state == old(self)@.state,
            final(self)@.pending == match r@ {
                ParseView::Parsed(_, consumed) => old(self)@.pending.skip(consumed),
                _ => old(self)@.pending,
            },
    {
        let r = parse_message(buffer_as_slice(&self.buffer));
        match &r {
            ParseResult::Parsed(_, consumed) => {
                buffer_advance(&mut self.buffer, *consumed);
            },
            _ => {},
        }
        r
    }

    fn advance(&mut self) -> (action: Action)
        ensures
            (final(self)@, action@) == take_request(old(self)@.pending),
    {
        match self.take_value() {
            ParseResult::Parsed(value, _) => {
                self.state = State::Writing;
                Action::Write(handle_request(value).serialize())
            },
            ParseResult::Incomplete => {
                self.state = State::AwaitingData;
                Action::Read
            },
            ParseResult::Malformed(_) => {
                self.state = State::Closed;
                Action::Close
            },
        }
    }

    /// Takes what the socket did and says what to do next.
    pub fn handle(&mut self, event: Event) -> (action: Action)
        ensures
            (final(self)@, action@) == step(old(self)@, event@),
    {
        if self.state == State::Closed {
            return self.close();
        }
        match event {
            Event::Failed => self.close(),
            Event::Written => self.advance(),
            Event::Read(data) => {
                if data.len() == 0 || !self.feed(data.as_slice()) {
                    self.close()
                } else {
                    self.advance()
                }
            },
        }
    }
}

} // verus!
