//! The local control protocol: bounded lines, and what a request asks for.
use crate::error::{ControlError, Failure};
use vstd::prelude::*;

verus! {

/// The longest line, in bytes.
pub const LIMIT: usize = 4096;

/// A request of a control client.
#[derive(Clone, Copy, Debug, PartialEq, Eq, Structural)]
pub enum Request {
    Pause,
    Resume,
    Stop,
    Status,
    MemoryStatus,
    MemorySet { requested_mib: u64 },
}

#[derive(Debug)]
pub enum ProtocolError {
    Timeout,
    Disconnected { expected: &'static str },
    TooLong { kind: &'static str, limit: usize },
    Io(Failure),
    Json(Failure),
    Control(ControlError),
}

/// What is done for a request before it is answered.
#[derive(Clone, Copy, Debug, PartialEq, Eq, Structural)]
pub enum Work {
    Nothing,
    Pause,
    Resume,
    Stop,
    /// Dynamic memory is to have this size.
    Target(u64),
}

/// What an answer shows.
#[derive(Clone, Copy, Debug, PartialEq, Eq, Structural)]
pub enum Shown {
    Vm,
    Memory,
}

/// What a request asks for: work, and then what the answer shows.
pub open spec fn asked(request: Request) -> (Work, Shown) {
    match request {
        Request::Pause => (Work::Pause, Shown::Vm),
        Request::Resume => (Work::Resume, Shown::Vm),
        Request::Stop => (Work::Stop, Shown::Vm),
        Request::Status => (Work::Nothing, Shown::Vm),
        Request::MemoryStatus => (Work::Nothing, Shown::Memory),
        Request::MemorySet { requested_mib } => (Work::Target(requested_mib), Shown::Memory),
    }
}

impl Request {
    /// What the request asks for.
    pub fn plan(&self) -> (r: (Work, Shown))
        ensures
            r == asked(*self),
    {
        match self {
            Request::Pause => (Work::Pause, Shown::Vm),
            Request::Resume => (Work::Resume, Shown::Vm),
            Request::Stop => (Work::Stop, Shown::Vm),
            Request::Status => (Work::Nothing, Shown::Vm),
            Request::MemoryStatus => (Work::Nothing, Shown::Memory),
            Request::MemorySet { requested_mib } => (Work::Target(*requested_mib), Shown::Memory),
        }
    }
}

/// What a connection brings while a line is read.
#[derive(Debug)]
pub enum Input {
    Byte(u8),
    /// The peer has gone.
    Closed,
    /// Nothing came in time.
    Expired,
    /// Waiting was interrupted.
    Interrupted,
    Failed(Failure),
}

/// A line while it is read.
pub struct Line {
    data: Vec<u8>,
}

impl View for Line {
    type V = Seq<u8>;

    closed spec fn view(&self) -> Seq<u8> {
        self.data@
    }
}

/// What one byte does to a line: `None` is the end.
pub open spec fn grown(line: Seq<u8>, byte: u8) -> Result<Option<Seq<u8>>, ()> {
    if byte == 0x0a {
        Ok(None)
    } else if line.len() >= LIMIT {
        Err(())
    } else {
        Ok(Some(line.push(byte)))
    }
}

impl Line {
    pub fn new() -> (r: Self)
        ensures
            r@ == Seq::<u8>::empty(),
    {
        Line { data: Vec::new() }
    }

    /// Takes what the connection brought, and tells whether the line is
    /// complete. `kind` names what is read, `expected` what was still missing.
    pub fn take(&mut self, input: Input, kind: &'static str, expected: &'static str) -> (r: Result<
        bool,
        ProtocolError,
    >)
        ensures
            match input {
                Input::Byte(byte) => match grown(old(self)@, byte) {
                    Ok(None) => r == Ok::<bool, ProtocolError>(true) && final(self)@ == old(self)@,
                    Ok(Some(line)) => r == Ok::<bool, ProtocolError>(false) && final(self)@ == line,
                    Err(_) => r == Err::<bool, ProtocolError>(
                        ProtocolError::TooLong { kind, limit: LIMIT },
                    ) && final(self)@ == old(self)@,
                },
                Input::Closed => r == Err::<bool, ProtocolError>(
                    ProtocolError::Disconnected { expected },
                ) && final(self)@ == old(self)@,
                Input::Expired => r == Err::<bool, ProtocolError>(ProtocolError::Timeout)
                    && final(self)@ == old(self)@,
                Input::Interrupted => r == Ok::<bool, ProtocolError>(false) && final(self)@
                    == old(self)@,
                Input::Failed(e) => r == Err::<bool, ProtocolError>(ProtocolError::Io(e))
                    && final(self)@ == old(self)@,
            },
    {
        match input {
            Input::Byte(byte) => {
                if byte == 0x0a {
                    return Ok(true);
                }
                if self.data.len() >= LIMIT {
                    return Err(ProtocolError::TooLong { kind, limit: LIMIT });
                }
                self.data.push(byte);
                Ok(false)
            },
            Input::Closed => Err(ProtocolError::Disconnected { expected }),
            Input::Expired => Err(ProtocolError::Timeout),
            Input::Interrupted => Ok(false),
            Input::Failed(e) => Err(ProtocolError::Io(e)),
        }
    }

    /// What was read.
    pub fn into_data(self) -> (r: Vec<u8>)
        ensures
            r@ == self@,
    {
        self.data
    }
}

/// A line fed with `bytes`: the line so far and whether it is complete, or an
/// error. What follows the end is not looked at.
pub open spec fn fed(bytes: Seq<u8>) -> Result<(Seq<u8>, bool), ()>
    decreases bytes.len(),
{
    if bytes.len() == 0 {
        Ok((Seq::empty(), false))
    } else {
        match fed(bytes.drop_last()) {
            Err(_) => Err(()),
            Ok((line, true)) => Ok((line, true)),
            Ok((line, false)) => match grown(line, bytes.last()) {
                Err(_) => Err(()),
                Ok(None) => Ok((line, true)),
                Ok(Some(line)) => Ok((line, false)),
            },
        }
    }
}

/// A line of at most the limit is read as it was sent, up to its end; a longer
/// one is refused, and holds never more than the limit.
pub proof fn lines_are_read_as_sent(text: Seq<u8>)
    requires
        forall|i: int| 0 <= i < text.len() ==> #[trigger] text[i] != 0x0a,
    ensures
        text.len() <= LIMIT ==> fed(text) == Ok::<(Seq<u8>, bool), ()>((text, false)) && fed(
            text.push(0x0a),
        ) == Ok::<(Seq<u8>, bool), ()>((text, true)),
        text.len() > LIMIT ==> fed(text) is Err,
    decreases text.len(),
{
    if text.len() > 0 {
        let less = text.drop_last();
        assert forall|i: int| 0 <= i < less.len() implies #[trigger] less[i] != 0x0a by {
            assert(less[i] == text[i]);
        }
        lines_are_read_as_sent(less);
        assert(less.push(text.last()) =~= text);
        assert(text.last() == text[text.len() - 1]);
    } else {
        assert(text =~= Seq::empty());
    }
    assert(text.push(0x0a).drop_last() =~= text);
}

/// Most clients that are served at once.
pub const CLIENTS: usize = 16;

/// What a server does next.
#[derive(Clone, Copy, Debug, PartialEq, Eq, Structural)]
pub enum Listening {
    /// Look for a client.
    Accept,
    /// Wait a moment.
    Rest,
    /// Serve those who are there, and leave.
    Leave,
}

/// What comes next for a server with `clients` clients.
pub open spec fn next_of(stopping: bool, clients: usize) -> Listening {
    if stopping {
        Listening::Leave
    } else if clients >= CLIENTS {
        Listening::Rest
    } else {
        Listening::Accept
    }
}

/// What a server does next that serves `clients` clients.
pub fn listening(stopping: bool, clients: usize) -> (r: Listening)
    ensures
        r == next_of(stopping, clients),
{
    if stopping {
        Listening::Leave
    } else if clients >= CLIENTS {
        Listening::Rest
    } else {
        Listening::Accept
    }
}

} // verus!
