//! The client's decisions: which hosts it registers, where each of them is
//! forwarded to, and what it does with each message of the server.
//!
//! Nothing here reads or writes a stream. The caller reads, hands over what
//! arrived, and carries out what comes back.

use crate::protocol::{Message, Protocol, Request};
use crate::text::{same_text, spec_split_at_colon, split_at_colon};
use tokio_rustls::rustls::ServerName;
use vstd::prelude::*;
use vstd::string::*;

verus! {

/// The client sends a `Ping` after this many seconds without a message.
pub const KEEPALIVE_SECS: u64 = 60;

/// One forward: requests for `domain` go to the origin at `destination`.
#[derive(Debug, Clone, PartialEq, Eq)]
pub struct ForwardOption {
    pub domain: String,
    pub destination: String,
}

/// A forward that is not of the form `domain:destination`.
#[derive(Debug, Clone, Copy, PartialEq, Eq)]
pub struct InvalidForwardOption;

/// The host and the destination that `s` names: what stands before its first
/// colon, and all that follows it, further colons included. The destination
/// is not empty.
pub open spec fn spec_forward(s: Seq<char>) -> Option<(Seq<char>, Seq<char>)> {
    match spec_split_at_colon(s) {
        Some((domain, destination)) => if destination.len() > 0 {
            Some((domain, destination))
        } else {
            None
        },
        None => None,
    }
}

impl ForwardOption {
    /// Reads a forward of the form `domain:destination`.
    pub fn from_str(s: &str) -> (r: Result<ForwardOption, InvalidForwardOption>)
        ensures
            match r {
                Ok(option) => spec_forward(s@) == Some((option.domain@, option.destination@)),
                Err(_) => spec_forward(s@).is_none(),
            },
    {
        match split_at_colon(s) {
            Some((domain, destination)) => {
                if destination.is_empty() {
                    Err(InvalidForwardOption)
                } else {
                    Ok(
                        ForwardOption {
                            domain: domain.to_owned(),
                            destination: destination.to_owned(),
                        },
                    )
                }
            },
            None => Err(InvalidForwardOption),
        }
    }
}

/// The hosts of `forward`, in their order.
pub open spec fn spec_domains(forward: Seq<ForwardOption>) -> Seq<Seq<char>> {
    Seq::new(forward.len(), |i: int| forward[i].domain@)
}

/// The message that registers every host of `forward`.
pub fn registration(forward: &Vec<ForwardOption>) -> (r: Protocol)
    ensures
        r@ == (Message::Register { domains: spec_domains(forward@) }),
{
    let mut domains: Vec<String> = Vec::with_capacity(forward.len());
    let mut i: usize = 0;
    while i < forward.len()
        invariant
            i <= forward@.len(),
            domains@.len() == i,
            forall|j: int| 0 <= j < i ==> (#[trigger] domains@[j])@ == forward@[j].domain@,
        decreases forward@.len() - i,
    {
        domains.push(forward[i].domain.clone());
        i += 1;
    }
    assert(domains.deep_view() =~= spec_domains(forward@));
    Protocol::Register { domains }
}

/// Where requests for `domain` go: the destination of the last forward for
/// that host.
pub open spec fn spec_destination(forward: Seq<ForwardOption>, domain: Seq<char>) -> Option<String>
    decreases forward.len(),
{
    if forward.len() == 0 {
        None
    } else if forward.last().domain@ == domain {
        Some(forward.last().destination)
    } else {
        spec_destination(forward.drop_last(), domain)
    }
}

/// Where requests for `domain` go, if the host is one of `forward`.
pub fn destination<'a>(forward: &'a Vec<ForwardOption>, domain: &str) -> (r: Option<&'a String>)
    ensures
        match r {
            Some(d) => spec_destination(forward@, domain@) == Some(*d),
            None => spec_destination(forward@, domain@).is_none(),
        },
{
    let mut i: usize = forward.len();
    assert(forward@.subrange(0, i as int) == forward@);
    while i > 0
        invariant
            i <= forward@.len(),
            spec_destination(forward@, domain@) == spec_destination(
                forward@.subrange(0, i as int),
                domain@,
            ),
        decreases i,
    {
        i -= 1;
        assert(forward@.subrange(0, i + 1).drop_last() == forward@.subrange(0, i as int));
        if same_text(forward[i].domain.as_str(), domain) {
            return Some(&forward[i].destination);
        }
    }
    None
}

/// The first message on the fresh connection that serves `request`: it names
/// the key under which the connection from outside waits.
pub fn answer(request: &Request) -> (r: Protocol)
    ensures
        r@ == (Message::Response { key: request.key@ }),
{
    Protocol::Response { key: vstd::slice::slice_to_vec(request.key.as_slice()) }
}

/// What happens to a client.
pub enum ClientEvent {
    /// A message has arrived from the server, or its stream has ended.
    Frame(Option<Protocol>),
    /// `KEEPALIVE_SECS` have passed without a message.
    Tick,
    /// The client was told to end.
    Signal,
}

/// What a client does about it.
#[derive(Debug, Clone, PartialEq, Eq)]
pub enum ClientAction {
    /// The registration stands: note it and go on.
    Registered,
    /// The registration was refused: shut down and fail.
    Rejected,
    /// Serve the connection that waits under the key of `request`: dial
    /// `destination` and a fresh connection to the server, send `Response`
    /// with that key, and join the two.
    Forward { request: Request, destination: String },
    /// The server asks for a host that was never registered.
    Unknown(Request),
    /// Send this message to the server.
    Send(Protocol),
    /// Nothing to do: go on.
    Idle,
    /// Shut the connection down and end.
    Stop,
}

/// The action that answers an event of the client.
pub open spec fn spec_client_step(forward: Seq<ForwardOption>, event: ClientEvent) -> ClientAction {
    match event {
        ClientEvent::Frame(Some(Protocol::Accepted)) => ClientAction::Registered,
        ClientEvent::Frame(Some(Protocol::Error)) => ClientAction::Rejected,
        ClientEvent::Frame(Some(Protocol::Request(request))) => match spec_destination(
            forward,
            request.domain@,
        ) {
            Some(destination) => ClientAction::Forward { request, destination },
            None => ClientAction::Unknown(request),
        },
        ClientEvent::Frame(Some(_)) => ClientAction::Idle,
        ClientEvent::Frame(None) => ClientAction::Stop,
        ClientEvent::Tick => ClientAction::Send(Protocol::Ping),
        ClientEvent::Signal => ClientAction::Stop,
    }
}

/// Decides what the client does about `event`.
pub fn client_step(forward: &Vec<ForwardOption>, event: ClientEvent) -> (r: ClientAction)
    ensures
        r == spec_client_step(forward@, event),
{
    match event {
        ClientEvent::Frame(Some(Protocol::Accepted)) => ClientAction::Registered,
        ClientEvent::Frame(Some(Protocol::Error)) => ClientAction::Rejected,
        ClientEvent::Frame(Some(Protocol::Request(request))) => {
            match destination(forward, request.domain.as_str()) {
                Some(d) => {
                    let destination = d.clone();
                    ClientAction::Forward { request, destination }
                },
                None => ClientAction::Unknown(request),
            }
        },
        ClientEvent::Frame(Some(_)) => ClientAction::Idle,
        ClientEvent::Frame(None) => ClientAction::Stop,
        ClientEvent::Tick => ClientAction::Send(Protocol::Ping),
        ClientEvent::Signal => ClientAction::Stop,
    }
}

/// Whether `name` is one that a TLS client can ask a server for: a DNS name
/// or an IP address.
pub uninterp spec fn valid_server_name(name: Seq<char>) -> bool;

/// `ServerName::try_from` of the crate `rustls`: whether `name` can be read
/// as the name of a server.
#[verifier::external_body]
fn is_server_name(name: &str) -> (r: bool)
    ensures
        r == valid_server_name(name@),
{
    match ServerName::try_from(name) {
        Ok(_) => true,
        Err(_) => false,
    }
}

/// Why a client's options are refused.
#[derive(Debug, Clone, Copy, PartialEq, Eq)]
pub enum OptError {
    /// No forward is given.
    MissingForward,
    /// The server's address does not start with the name of a server.
    WrongFormat,
}

/// The part of an address that names the server: what stands before its
/// first colon, or all of it where it has none.
pub open spec fn spec_host_part(addr: Seq<char>) -> Seq<char> {
    match spec_split_at_colon(addr) {
        Some((host, _)) => host,
        None => addr,
    }
}

/// The name of the server in `addr`.
pub fn host_part(addr: &str) -> (r: &str)
    ensures
        r@ == spec_host_part(addr@),
{
    match split_at_colon(addr) {
        Some((host, _)) => host,
        None => addr,
    }
}

/// The verdict on a client's options, given how many forwards there are and
/// whether its address starts with the name of a server: a missing forward
/// is found before a wrong address.
pub fn judge_opt(forwards: usize, server_named: bool) -> (r: Result<(), OptError>)
    ensures
        r == if forwards == 0 {
            Err::<(), OptError>(OptError::MissingForward)
        } else if !server_named {
            Err(OptError::WrongFormat)
        } else {
            Ok(())
        },
{
    if forwards == 0 {
        Err(OptError::MissingForward)
    } else if !server_named {
        Err(OptError::WrongFormat)
    } else {
        Ok(())
    }
}

/// Checks a client's options: at least one forward, and a server address
/// that starts with the name of a server.
pub fn validate_opt(server_addr: &str, forward: &Vec<ForwardOption>) -> (r: Result<(), OptError>)
    ensures
        r == if forward@.len() == 0 {
            Err::<(), OptError>(OptError::MissingForward)
        } else if !valid_server_name(spec_host_part(server_addr@)) {
            Err(OptError::WrongFormat)
        } else {
            Ok(())
        },
{
    judge_opt(forward.len(), is_server_name(host_part(server_addr)))
}

} // verus!
