//! What a connection's reader decides on each line it reads: when a client
//! is admitted, which commands reach the broker, and when the connection is
//! given up.
use vstd::prelude::*;
use crate::messages::ClientCommand;
use crate::broker::BrokerEvent;

verus! {

/// After this many failed reads in a row a connection is given up.
pub const ERROR_THRESHOLD: u32 = 10;

/// The outcome of reading one line from a connection; where it is a line,
/// `T` is what the line was decoded into.
#[derive(Debug)]
pub enum LineRead<T> {
    Line(T),
    Failed(String),
    Ended,
}

/// What the reader does with one outcome.
#[derive(Debug)]
pub enum LineStep<T> {
    /// Hand the decoded line on.
    Deliver(T),
    /// A failed read below the threshold: read on.
    Skip,
    /// The connection ended in order.
    Finished,
}

/// Why a connection is given up.
#[derive(Debug, PartialEq, Eq)]
pub enum ConnectionError {
    /// The connection ended before its first line.
    DisconnectedImmediately,
    /// The address of the other end could not be had.
    NoPeerAddress,
    /// A read failed, with the reason.
    Io(String),
    /// A line was not a message of the expected kind, with the reason.
    Malformed(String),
    /// A `ConnectClient` came where it does not belong, or another command
    /// came first.
    NotAConnectCommand,
    /// `ERROR_THRESHOLD` reads failed in a row.
    TooManyReadErrors,
}

impl ConnectionError {
    /// The text that the error is reported with.
    pub fn message(&self) -> (s: String)
        ensures
            s@ == error_text(*self),
    {
        match self {
            ConnectionError::DisconnectedImmediately => String::from_str(
                "peer disconnected immediately",
            ),
            ConnectionError::NoPeerAddress => String::from_str("Cannot get peer address"),
            ConnectionError::Io(reason) => reason.clone(),
            ConnectionError::Malformed(reason) => reason.clone(),
            ConnectionError::NotAConnectCommand => String::from_str(
                "First event wasn't a ClientCommand ",
            ),
            ConnectionError::TooManyReadErrors => String::from_str(
                "Client error count reached the threshold",
            ),
        }
    }
}

/// The text of each error.
pub open spec fn error_text(e: ConnectionError) -> Seq<char> {
    match e {
        ConnectionError::DisconnectedImmediately => "peer disconnected immediately"@,
        ConnectionError::NoPeerAddress => "Cannot get peer address"@,
        ConnectionError::Io(reason) => reason@,
        ConnectionError::Malformed(reason) => reason@,
        ConnectionError::NotAConnectCommand => "First event wasn't a ClientCommand "@,
        ConnectionError::TooManyReadErrors => "Client error count reached the threshold"@,
    }
}

/// The count of failed reads in a row after one more failure, or `None`
/// where that failure gives the connection up.
pub open spec fn count_after_failure(errors: nat) -> Option<nat> {
    if errors + 1 >= ERROR_THRESHOLD {
        None
    } else {
        Some(errors + 1)
    }
}

/// The count after `k` more failures in a row from `start`, or `None` where
/// one of them gives the connection up.
pub open spec fn count_after_failures(start: nat, k: nat) -> Option<nat>
    decreases k,
{
    if k == 0 {
        Some(start)
    } else {
        match count_after_failures(start, (k - 1) as nat) {
            Some(c) => count_after_failure(c),
            None => None,
        }
    }
}

/// From a fresh count, a connection survives fewer than `ERROR_THRESHOLD`
/// failed reads in a row, with the count equal to their number, and is given
/// up at the `ERROR_THRESHOLD`-th.
pub proof fn lemma_failures_in_a_row(k: nat)
    ensures
        k < ERROR_THRESHOLD ==> count_after_failures(0, k) == Some(k),
        k >= ERROR_THRESHOLD ==> count_after_failures(0, k) is None,
    decreases k,
{
    if k > 0 {
        lemma_failures_in_a_row((k - 1) as nat);
    }
}

/// The count of failed reads in a row that a connection's reader has seen.
pub struct LineReader {
    consecutive_errors: u32,
}

impl LineReader {
    #[verifier::type_invariant]
    closed spec fn inv(self) -> bool {
        self.consecutive_errors < ERROR_THRESHOLD
    }

    /// The number of failed reads since the last line that was read.
    pub closed spec fn errors(self) -> nat {
        self.consecutive_errors as nat
    }

    /// A reader that has seen no failure.
    pub fn new() -> (r: LineReader)
        ensures
            r.errors() == 0,
    {
        LineReader { consecutive_errors: 0 }
    }

    /// The number of failed reads since the last line that was read.
    pub fn consecutive_errors(&self) -> (n: u32)
        ensures
            n == self.errors(),
            n < ERROR_THRESHOLD,
    {
        proof {
            use_type_invariant(self);
        }
        self.consecutive_errors
    }

    /// Takes one read outcome: a line resets the count and is handed on; a
    /// failed read counts, and gives the connection up when it makes
    /// `ERROR_THRESHOLD` in a row; the end of the connection finishes it.
    pub fn next<T>(self, read: LineRead<T>) -> (r: Result<(LineReader, LineStep<T>), ConnectionError>)
        ensures
            match read {
                LineRead::Line(x) => r matches Ok((rd, step)) && rd.errors() == 0 && step
                    == LineStep::Deliver(x),
                LineRead::Failed(_) => match count_after_failure(self.errors()) {
                    None => r == Err::<(LineReader, LineStep<T>), ConnectionError>(
                        ConnectionError::TooManyReadErrors,
                    ),
                    Some(c) => r matches Ok((rd, step)) && rd.errors() == c && step
                        == LineStep::<T>::Skip,
                },
                LineRead::Ended => r matches Ok((rd, step)) && rd.errors() == self.errors() && step
                    == LineStep::<T>::Finished,
            },
    {
        proof {
            use_type_invariant(&self);
        }
        match read {
            LineRead::Line(x) => Ok((LineReader { consecutive_errors: 0 }, LineStep::Deliver(x))),
            LineRead::Failed(_) => {
                let count = self.consecutive_errors + 1;
                if count == ERROR_THRESHOLD {
                    Err(ConnectionError::TooManyReadErrors)
                } else {
                    Ok((LineReader { consecutive_errors: count }, LineStep::Skip))
                }
            },
            LineRead::Ended => Ok((self, LineStep::Finished)),
        }
    }
}

/// The id, client id and port of a `ConnectClient` command; any other
/// command, or a line that is no command, is refused.
pub fn extract_connect_client(parsed: Result<ClientCommand, String>) -> (r: Result<
    (String, String, i32),
    ConnectionError,
>)
    ensures
        match parsed {
            Err(reason) => r matches Err(ConnectionError::Malformed(m)) && m@ == reason@,
            Ok(ClientCommand::LeaveClient { .. }) => r == Err::<(String, String, i32), ConnectionError>(
                ConnectionError::NotAConnectCommand,
            ),
            Ok(ClientCommand::ConnectClient { id, client_id, port }) => r matches Ok(
                (rid, rcid, rport),
            ) && rid@ == id@ && rcid@ == client_id@ && rport == port,
        },
{
    match parsed {
        Err(reason) => Err(ConnectionError::Malformed(reason)),
        Ok(ClientCommand::ConnectClient { id, client_id, port }) => Ok((id, client_id, port)),
        Ok(ClientCommand::LeaveClient { .. }) => Err(ConnectionError::NotAConnectCommand),
    }
}

/// The event that a new connection reports, from its first read and the
/// address of the other end: the connection must not end or fail before its
/// first line, the address must be known, and the line must be a
/// `ConnectClient` command.
pub fn open_connection(
    first: LineRead<Result<ClientCommand, String>>,
    peer_address: Option<String>,
) -> (r: Result<BrokerEvent, ConnectionError>)
    ensures
        match first {
            LineRead::Ended => r == Err::<BrokerEvent, ConnectionError>(
                ConnectionError::DisconnectedImmediately,
            ),
            LineRead::Failed(reason) => r matches Err(ConnectionError::Io(m)) && m@ == reason@,
            LineRead::Line(parsed) => match peer_address {
                None => r == Err::<BrokerEvent, ConnectionError>(ConnectionError::NoPeerAddress),
                Some(address) => match parsed {
                    Err(reason) => r matches Err(ConnectionError::Malformed(m)) && m@ == reason@,
                    Ok(ClientCommand::LeaveClient { .. }) => r == Err::<
                        BrokerEvent,
                        ConnectionError,
                    >(ConnectionError::NotAConnectCommand),
                    Ok(ClientCommand::ConnectClient { id, client_id, port }) => r matches Ok(
                        BrokerEvent::NewClient { id: rid, client_id: rcid, address: raddr, port: rport },
                    ) && rid@ == id@ && rcid@ == client_id@ && raddr@ == address@ && rport
                        == port,
                },
            },
        },
{
    match first {
        LineRead::Ended => Err(ConnectionError::DisconnectedImmediately),
        LineRead::Failed(reason) => Err(ConnectionError::Io(reason)),
        LineRead::Line(parsed) => match peer_address {
            None => Err(ConnectionError::NoPeerAddress),
            Some(address) => {
                let (id, client_id, port) = extract_connect_client(parsed)?;
                Ok(BrokerEvent::NewClient { id, client_id, address, port })
            },
        },
    }
}

/// The event that a command read after admission reports: only
/// `LeaveClient` is accepted there.
pub fn follow_up_command(parsed: Result<ClientCommand, String>) -> (r: Result<
    BrokerEvent,
    ConnectionError,
>)
    ensures
        match parsed {
            Err(reason) => r matches Err(ConnectionError::Malformed(m)) && m@ == reason@,
            Ok(ClientCommand::ConnectClient { .. }) => r == Err::<BrokerEvent, ConnectionError>(
                ConnectionError::NotAConnectCommand,
            ),
            Ok(ClientCommand::LeaveClient { id, client_id }) => r matches Ok(
                BrokerEvent::ClientLeft { id: rid, client_id: rcid },
            ) && rid@ == id@ && rcid@ == client_id@,
        },
{
    match parsed {
        Err(reason) => Err(ConnectionError::Malformed(reason)),
        Ok(ClientCommand::LeaveClient { id, client_id }) => Ok(
            BrokerEvent::ClientLeft { id, client_id },
        ),
        Ok(ClientCommand::ConnectClient { .. }) => Err(ConnectionError::NotAConnectCommand),
    }
}

/// A decoded line, or the reason it could not be decoded, as a connection error.
pub fn decoded<T>(parsed: Result<T, String>) -> (r: Result<T, ConnectionError>)
    ensures
        match parsed {
            Ok(x) => r == Ok::<T, ConnectionError>(x),
            Err(reason) => r matches Err(ConnectionError::Malformed(m)) && m@ == reason@,
        },
{
    match parsed {
        Ok(x) => Ok(x),
        Err(reason) => Err(ConnectionError::Malformed(reason)),
    }
}

} // verus!
