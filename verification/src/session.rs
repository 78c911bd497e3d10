//! Framing on a worker connection: bytes are gathered until they decode as
//! one message, and what is decoded decides what the side that reads does.

use vstd::prelude::*;

verus! {

/// What decoding the gathered bytes gave.
pub enum Decoded {
    /// A chunk assignment.
    Assign,
    /// A computed result.
    Result,
    /// An error message from the hub.
    HubError,
    /// The bytes end before the message does.
    Incomplete,
    /// The bytes are not a valid message.
    Invalid,
}

/// What a worker does next.
pub enum WorkerStep {
    /// Compute the assigned chunk and send the result.
    RunTask,
    /// Close the connection.
    Stop,
    /// Read more bytes.
    ReadMore,
}

/// Bytes received on a connection and not yet consumed.
pub struct FrameBuffer {
    data: Vec<u8>,
}

impl FrameBuffer {
    /// The gathered bytes.
    pub closed spec fn bytes(&self) -> Seq<u8> {
        self.data@
    }

    /// An empty buffer.
    pub fn new() -> (b: FrameBuffer)
        ensures
            b.bytes() == Seq::<u8>::empty(),
    {
        FrameBuffer { data: Vec::new() }
    }

    /// Appends what one read returned.
    pub fn extend(&mut self, chunk: &[u8])
        ensures
            final(self).bytes() == old(self).bytes() + chunk@,
    {
        let ghost start = self.data@;
        let mut i: usize = 0;
        while i < chunk.len()
            invariant
                i <= chunk@.len(),
                self.data@ == start + chunk@.subrange(0, i as int),
            decreases chunk@.len() - i,
        {
            self.data.push(chunk[i]);
            i = i + 1;
            assert(self.data@ =~= start + chunk@.subrange(0, i as int));
        }
        assert(chunk@.subrange(0, chunk@.len() as int) =~= chunk@);
    }

    /// The gathered bytes, to be decoded.
    pub fn as_slice(&self) -> (s: &[u8])
        ensures
            s@ == self.bytes(),
    {
        self.data.as_slice()
    }

    /// Drops the gathered bytes.
    pub fn clear(&mut self)
        ensures
            final(self).bytes() == Seq::<u8>::empty(),
    {
        self.data.clear();
    }

    /// A worker's reaction to what it decoded: any complete message, and
    /// bytes that are not a message, are consumed; an incomplete message
    /// is kept to be completed by the next read. An assignment is run, an
    /// error from the hub ends the connection, anything else is skipped.
    pub fn worker_on_decoded(&mut self, d: Decoded) -> (step: WorkerStep)
        ensures
            d is Incomplete ==> final(self).bytes() == old(self).bytes(),
            !(d is Incomplete) ==> final(self).bytes() == Seq::<u8>::empty(),
            step == match d {
                Decoded::Assign => WorkerStep::RunTask,
                Decoded::HubError => WorkerStep::Stop,
                _ => WorkerStep::ReadMore,
            },
    {
        match d {
            Decoded::Assign => {
                self.data.clear();
                WorkerStep::RunTask
            },
            Decoded::HubError => {
                self.data.clear();
                WorkerStep::Stop
            },
            Decoded::Result => {
                self.data.clear();
                WorkerStep::ReadMore
            },
            Decoded::Incomplete => WorkerStep::ReadMore,
            Decoded::Invalid => {
                self.data.clear();
                WorkerStep::ReadMore
            },
        }
    }

    /// The hub's reaction to what it decoded while waiting for a result: a
    /// result ends the wait and consumes the bytes; anything else, even
    /// bytes that are not a message, is kept and more is read.
    pub fn hub_on_decoded(&mut self, d: Decoded) -> (got_result: bool)
        ensures
            got_result == d is Result,
            got_result ==> final(self).bytes() == Seq::<u8>::empty(),
            !got_result ==> final(self).bytes() == old(self).bytes(),
    {
        match d {
            Decoded::Result => {
                self.data.clear();
                true
            },
            _ => false,
        }
    }
}

/// What an attempt to reach the hub gave.
pub enum ConnectEvent {
    /// The hub's address could not be resolved.
    LookupFailed,
    /// The address resolved to nothing.
    LookupEmpty,
    /// The local socket could not be created or configured.
    SetupFailed,
    /// The socket could not be bound to the chosen local address.
    BindFailed,
    /// The hub did not accept the connection.
    ConnectFailed,
    /// The connection is open.
    Connected,
}

/// What the connecting side does next.
pub enum ConnectAction {
    /// Wait this many seconds, then try again.
    RetryAfter(u64),
    /// Try again at once.
    RetryNow,
    /// Give up with the error.
    Fail,
    /// Use the connection.
    Done,
}

/// The retry rule of a worker reaching the hub: a failed lookup, bind or
/// connection waits `retry_secs` and tries again, an empty lookup tries
/// again at once, a socket that cannot be set up ends the attempt, and an
/// open connection is used.
pub fn connect_step(ev: ConnectEvent, retry_secs: u64) -> (a: ConnectAction)
    ensures
        a == match ev {
            ConnectEvent::LookupFailed | ConnectEvent::BindFailed | ConnectEvent::ConnectFailed =>
                ConnectAction::RetryAfter(retry_secs),
            ConnectEvent::LookupEmpty => ConnectAction::RetryNow,
            ConnectEvent::SetupFailed => ConnectAction::Fail,
            ConnectEvent::Connected => ConnectAction::Done,
        },
{
    match ev {
        ConnectEvent::LookupFailed | ConnectEvent::BindFailed | ConnectEvent::ConnectFailed => {
            ConnectAction::RetryAfter(retry_secs)
        },
        ConnectEvent::LookupEmpty => ConnectAction::RetryNow,
        ConnectEvent::SetupFailed => ConnectAction::Fail,
        ConnectEvent::Connected => ConnectAction::Done,
    }
}

} // verus!
