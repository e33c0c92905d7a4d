use vstd::prelude::*;

use crate::grammar::{parse, Verdict};
use crate::reply::{reply_wire, Reply};
use crate::request::{Request, TaskError};
use crate::request_parsing::try_parse_request;
use crate::text::{append_bytes, chars_of_bytes};

verus! {

/// What happened on a connection since its last step.
pub enum Event {
    /// Bytes arrived from the client; none when the client closed the
    /// connection or the read failed.
    Received(Vec<u8>),
    /// The store's answer to the request last dispatched, or its failure.
    Answered(Result<Reply, TaskError>),
    /// Whether the last response was written out.
    Written(bool),
}

/// What the connection's driver does next.
pub enum Action {
    /// Read more bytes from the client.
    Read,
    /// Hand the request to the store and report its answer.
    Dispatch(Request),
    /// Write this response to the client and report whether it went out.
    Send(String),
    /// Close the connection.
    Close,
}

/// The state of one client connection: the bytes read but not yet taken up
/// by a request.
pub struct Connection {
    buffer: String,
}

impl View for Connection {
    type V = Seq<char>;

    closed spec fn view(&self) -> Seq<char> {
        self.buffer@
    }
}

/// Taking the next request off the buffer `b` gives `action` and leaves
/// `buffer`: a parsed request is dispatched and leaves the rest; an
/// incomplete buffer waits for more bytes; a malformed one ends the
/// connection.
pub open spec fn drains_to(b: Seq<char>, action: Action, buffer: Seq<char>) -> bool {
    match parse(b) {
        Verdict::Parsed { request, rest } => {
            &&& action matches Action::Dispatch(q)
            &&& q@ == request
            &&& buffer == rest
        },
        Verdict::Incomplete => action is Read && buffer == b,
        Verdict::Malformed => action is Close && buffer == b,
    }
}

impl Connection {
    /// A new connection, with nothing read yet.
    pub fn new() -> (r: Self)
        ensures
            r@ == Seq::<char>::empty(),
    {
        Connection { buffer: String::new() }
    }

    /// Takes the next request off the buffer, if there is one.
    fn drain(&mut self) -> (action: Action)
        ensures
            drains_to(old(self)@, action, final(self)@),
    {
        match try_parse_request(&mut self.buffer) {
            Ok(Some(request)) => Action::Dispatch(request),
            Ok(None) => Action::Read,
            Err(_) => Action::Close,
        }
    }

    /// Decides what follows `event`.
    ///
    /// Bytes that arrive are appended to the buffer, one character per byte,
    /// and a written response lets the next request be taken off the buffer
    /// before anything more is read; so responses leave in the order the
    /// requests came. An answer from the store becomes its response. The end
    /// of the input, a failed store or a failed write closes the connection.
    pub fn step(&mut self, event: Event) -> (action: Action)
        ensures
            match event {
                Event::Received(bytes) => if bytes@.len() == 0 {
                    action is Close && final(self)@ == old(self)@
                } else {
                    drains_to(old(self)@ + chars_of_bytes(bytes@), action, final(self)@)
                },
                Event::Answered(Ok(reply)) => {
                    &&& action matches Action::Send(text)
                    &&& text@ == reply_wire(reply@)
                    &&& final(self)@ == old(self)@
                },
                Event::Answered(Err(_)) => action is Close && final(self)@ == old(self)@,
                Event::Written(true) => drains_to(old(self)@, action, final(self)@),
                Event::Written(false) => action is Close && final(self)@ == old(self)@,
            },
    {
        match event {
            Event::Received(bytes) => {
                if bytes.len() == 0 {
                    Action::Close
                } else {
                    append_bytes(&mut self.buffer, bytes.as_slice());
                    self.drain()
                }
            },
            Event::Answered(Ok(reply)) => Action::Send(reply.encode()),
            Event::Answered(Err(_)) => Action::Close,
            Event::Written(true) => self.drain(),
            Event::Written(false) => Action::Close,
        }
    }
}

} // verus!
