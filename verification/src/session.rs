//! A client's side of the rendezvous: the commands it sends and what it does
//! with each line from the server or from its console.
use vstd::prelude::*;
use crate::messages::{ClientCommand, ClientEvent};
use crate::connection::LineRead;

verus! {

/// The port on which a client announces that it accepts peers.
pub const PEER_PORT: i32 = 7890;

/// A lowercase hexadecimal digit.
pub open spec fn is_lower_hex(c: char) -> bool {
    ('0' <= c && c <= '9') || ('a' <= c && c <= 'f')
}

/// The hyphenated lowercase text of a random (version 4, RFC variant) UUID,
/// such as `67e55044-10b1-426f-9247-bb680e5fe0c8`.
pub open spec fn is_v4_uuid_text(s: Seq<char>) -> bool {
    &&& s.len() == 36
    &&& forall|i: int|
        0 <= i < 36 ==> if i == 8 || i == 13 || i == 18 || i == 23 {
            #[trigger] s[i] == '-'
        } else {
            is_lower_hex(s[i])
        }
    &&& s[14] == '4'
    &&& (s[19] == '8' || s[19] == '9' || s[19] == 'a' || s[19] == 'b')
}

/// A fresh request id: calls `uuid::Uuid::new_v4` and renders the UUID with
/// its `Display` impl. The crate masks the random bits so that the version
/// digit is 4 and the variant bits are `10`, and renders the 16 bytes as
/// lowercase hex in the 8-4-4-4-12 hyphenated form; which digits come out is
/// random, so nothing more is stated. It panics only where the operating
/// system gives no random bytes.
#[verifier::external_body]
fn new_request_id() -> (id: String)
    ensures
        is_v4_uuid_text(id@),
{
    uuid::Uuid::new_v4().to_string()
}

/// The command with which `client_id` joins the rendezvous, under a fresh id,
/// announcing `PEER_PORT`.
pub fn join_command(client_id: &String) -> (c: ClientCommand)
    ensures
        c matches ClientCommand::ConnectClient { id, client_id: cid, port } && is_v4_uuid_text(id@)
            && cid@ == client_id@ && port == PEER_PORT,
{
    ClientCommand::ConnectClient { id: new_request_id(), client_id: client_id.clone(), port: PEER_PORT }
}

/// The command with which `client_id` leaves the rendezvous, under a fresh id.
pub fn leave_command(client_id: &String) -> (c: ClientCommand)
    ensures
        c matches ClientCommand::LeaveClient { id, client_id: cid } && is_v4_uuid_text(id@) && cid@
            == client_id@,
{
    ClientCommand::LeaveClient { id: new_request_id(), client_id: client_id.clone() }
}

/// Whether a console line asks the client to leave.
pub fn is_exit_command(line: &String) -> (b: bool)
    ensures
        b == (line@ == "EXIT"@),
{
    let exit = String::from_str("EXIT");
    *line == exit
}

/// What a client's session is handed: a read from the server or from the console.
#[derive(Debug)]
pub enum SessionInput {
    FromServer(LineRead<Result<ClientEvent, String>>),
    FromConsole(LineRead<String>),
}

/// What a client's session does next.
#[derive(Debug, PartialEq, Eq)]
pub enum SessionAction {
    /// Hand the event to the peer side of the client.
    Forward(ClientEvent),
    /// A line from the server was not an event: report it and read on.
    ReportUndecodable,
    /// Nothing to do: read on.
    Ignore,
    /// Send the command to the server, then stop.
    LeaveAndStop(ClientCommand),
    /// Stop in order.
    Stop,
    /// Stop with the read error.
    Fail(String),
}

/// One step of the session of `client_id`: events from the server are handed
/// on, undecodable lines reported, `EXIT` on the console sends a leave command
/// and stops, and the end of either input stops the session.
pub fn session_step(client_id: &String, input: SessionInput) -> (a: SessionAction)
    ensures
        match input {
            SessionInput::FromServer(LineRead::Line(Ok(e))) => a == SessionAction::Forward(e),
            SessionInput::FromServer(LineRead::Line(Err(_))) => a == SessionAction::ReportUndecodable,
            SessionInput::FromServer(LineRead::Failed(reason)) => a matches SessionAction::Fail(m)
                && m@ == reason@,
            SessionInput::FromServer(LineRead::Ended) => a == SessionAction::Stop,
            SessionInput::FromConsole(LineRead::Line(line)) => if line@ == "EXIT"@ {
                a matches SessionAction::LeaveAndStop(ClientCommand::LeaveClient { id, client_id: cid })
                    && is_v4_uuid_text(id@) && cid@ == client_id@
            } else {
                a == SessionAction::Ignore
            },
            SessionInput::FromConsole(LineRead::Failed(reason)) => a matches SessionAction::Fail(m)
                && m@ == reason@,
            SessionInput::FromConsole(LineRead::Ended) => a == SessionAction::Stop,
        },
{
    match input {
        SessionInput::FromServer(read) => match read {
            LineRead::Line(Ok(e)) => SessionAction::Forward(e),
            LineRead::Line(Err(_)) => SessionAction::ReportUndecodable,
            LineRead::Failed(reason) => SessionAction::Fail(reason),
            LineRead::Ended => SessionAction::Stop,
        },
        SessionInput::FromConsole(read) => match read {
            LineRead::Line(line) => {
                if is_exit_command(&line) {
                    SessionAction::LeaveAndStop(leave_command(client_id))
                } else {
                    SessionAction::Ignore
                }
            },
            LineRead::Failed(reason) => SessionAction::Fail(reason),
            LineRead::Ended => SessionAction::Stop,
        },
    }
}

} // verus!
