//! The server's decisions: what the first message on a client's connection
//! leads to, what a registered session does with each event, and how a
//! connection from outside is paired with a client.
//!
//! Nothing here reads or writes a stream. The caller reads, hands over what
//! arrived, and carries out what comes back.

use crate::http::{bad_gateway, gateway_timeout, Status};
use crate::protocol::{Protocol, Request};
use crate::shared::{any_registered, host_set, owned_by, spec_take, Shared};
use crate::text::spec_listed;
use crate::wire::put_raw;
use md5::{Digest, Md5};
use std::time::{Duration, SystemTimeError, UNIX_EPOCH};
use vstd::bytes::*;
use vstd::prelude::*;
use vstd::string::*;
use vstd::utf8::encode_utf8;

verus! {

/// A request from outside has this many seconds to name its host.
pub const SNIFF_TIMEOUT_SECS: u64 = 30;

/// A client has this many seconds to come for a connection that waits.
pub const RENDEZVOUS_TIMEOUT_SECS: u64 = 15;

/// A registry after a session with `handle` has asked for `domains`, and
/// whether it got them. It gets them all if there is at least one and no
/// session owns any of them; otherwise it gets none and nothing changes.
pub open spec fn spec_register<T>(
    registry: Map<Seq<char>, T>,
    domains: Seq<String>,
    handle: T,
) -> (Map<Seq<char>, T>, bool) {
    if domains.len() > 0 && !any_registered(registry, domains) {
        (registry.union_prefer_right(owned_by(domains, handle)), true)
    } else {
        (registry, false)
    }
}

/// What the first message on a client's connection leads to.
pub enum Handshake<S> {
    /// The registration stands: answer `Accepted`, then serve the session,
    /// and at its end take these hosts out of the registry.
    Registered(Vec<String>),
    /// The registration is refused: answer `Error` and shut down.
    Refused,
    /// The connection has come for one that waits: hand it over through
    /// this slot.
    Handoff(S),
    /// Nothing waits under the key: shut down.
    Shutdown,
    /// Not a first message: close.
    Close,
}

/// Decides on the first message of a client's connection. `msg` is what was
/// received, nothing if the stream ended; `handle` is what reaches the
/// session, should it register.
pub fn handle_client<T, S>(shared: &mut Shared<T, S>, msg: Option<Protocol>, handle: T) -> (r:
    Handshake<S>)
    ensures
        match msg {
            Some(Protocol::Register { domains }) => {
                let (registry, accepted) = spec_register(old(shared).client@, domains@, handle);
                &&& final(shared).client@ == registry
                &&& final(shared).conn@ == old(shared).conn@
                &&& accepted ==> (r matches Handshake::Registered(hosts) && hosts@ == domains@)
                &&& !accepted ==> r is Refused
            },
            Some(Protocol::Response { key }) => {
                let (table, slot) = spec_take(old(shared).conn@, key@);
                &&& final(shared).client@ == old(shared).client@
                &&& final(shared).conn@ == table
                &&& r == match slot {
                    Some(s) => Handshake::Handoff(s),
                    None => Handshake::Shutdown,
                }
                &&& slot.is_none() ==> final(shared).conn@ == old(shared).conn@
            },
            _ => {
                &&& final(shared).client@ == old(shared).client@
                &&& final(shared).conn@ == old(shared).conn@
                &&& r is Close
            },
        },
{
    match msg {
        Some(Protocol::Register { domains }) => {
            if domains.len() == 0 {
                return Handshake::Refused;
            }
            let hosts = clone_texts(&domains);
            match shared.client.add(domains, handle) {
                Ok(_) => Handshake::Registered(hosts),
                Err(_) => Handshake::Refused,
            }
        },
        Some(Protocol::Response { key }) => {
            match shared.conn.remove(key.as_slice()) {
                Some(slot) => Handshake::Handoff(slot),
                None => {
                    assert(shared.conn@ =~= old(shared).conn@);
                    Handshake::Shutdown
                },
            }
        },
        _ => Handshake::Close,
    }
}

/// A copy of `list`.
fn clone_texts(list: &Vec<String>) -> (copy: Vec<String>)
    ensures
        copy@ == list@,
{
    let mut copy: Vec<String> = Vec::with_capacity(list.len());
    let mut i: usize = 0;
    while i < list.len()
        invariant
            i <= list@.len(),
            copy@ == list@.subrange(0, i as int),
        decreases list@.len() - i,
    {
        copy.push(list[i].clone());
        i += 1;
        assert(copy@ == list@.subrange(0, i as int));
    }
    assert(list@.subrange(0, i as int) == list@);
    copy
}

/// Ends the session that registered `domains`: they leave the registry.
pub fn close_session<T, S>(shared: &mut Shared<T, S>, domains: &[String])
    ensures
        final(shared).client@ == old(shared).client@.remove_keys(host_set(domains@)),
        final(shared).conn@ == old(shared).conn@,
{
    shared.client.remove(domains);
}

/// What happens to a registered session.
pub enum SessionEvent {
    /// A message has arrived from the client, or its stream has ended.
    Frame(Option<Protocol>),
    /// A request for the client has come off the session's queue, or the
    /// queue has closed.
    Queued(Option<Request>),
}

/// What a registered session does about it.
#[derive(Debug, Clone, PartialEq, Eq)]
pub enum SessionAction {
    /// Send this message to the client.
    Send(Protocol),
    /// The client sent what a session has no use for: note it and go on.
    Unexpected(Protocol),
    /// Nothing to do: go on.
    Idle,
    /// The client is gone: end the session.
    Stop,
}

/// The action that answers an event of a registered session: a `Ping` is
/// answered with `Pong`, a queued request is passed on, the end of the
/// stream ends the session.
pub fn session_step(event: SessionEvent) -> (r: SessionAction)
    ensures
        r == match event {
            SessionEvent::Frame(Some(Protocol::Ping)) => SessionAction::Send(Protocol::Pong),
            SessionEvent::Frame(Some(other)) => SessionAction::Unexpected(other),
            SessionEvent::Frame(None) => SessionAction::Stop,
            SessionEvent::Queued(Some(request)) => SessionAction::Send(Protocol::Request(request)),
            SessionEvent::Queued(None) => SessionAction::Idle,
        },
{
    match event {
        SessionEvent::Frame(Some(Protocol::Ping)) => SessionAction::Send(Protocol::Pong),
        SessionEvent::Frame(Some(other)) => SessionAction::Unexpected(other),
        SessionEvent::Frame(None) => SessionAction::Stop,
        SessionEvent::Queued(Some(request)) => SessionAction::Send(Protocol::Request(request)),
        SessionEvent::Queued(None) => SessionAction::Idle,
    }
}

/// The MD5 digest of `data`.
pub uninterp spec fn md5_digest(data: Seq<u8>) -> Seq<u8>;

/// `Md5::digest` of the crate `md-5`: the MD5 digest of `data`, which has
/// 16 bytes.
#[verifier::external_body]
fn md5(data: &[u8]) -> (digest: Vec<u8>)
    ensures
        digest@ == md5_digest(data@),
        digest@.len() == 16,
{
    Md5::digest(data).to_vec()
}

/// `rand::random`: a 64-bit integer, of which nothing is known beforehand.
#[verifier::external_body]
fn random_u64() -> u64 {
    rand::random()
}

/// `std::time::SystemTimeError`: what a clock that stands before 1970 gives
/// in place of a duration. Nothing is read from it.
#[verifier::external_type_specification]
#[verifier::external_body]
pub struct ExSystemTimeError(SystemTimeError);

/// `SystemTime::elapsed` on `UNIX_EPOCH`: the time since 1970 by the clock of
/// the machine, or an error where that clock stands before 1970.
#[verifier::external_body]
fn since_epoch() -> Result<Duration, SystemTimeError> {
    UNIX_EPOCH.elapsed()
}

/// `Duration::as_secs`: the whole seconds of a duration.
#[verifier::external_body]
fn whole_seconds(d: &Duration) -> u64 {
    d.as_secs()
}

/// The eight bytes of `n`, high byte first.
pub open spec fn spec_u64_be(n: u64) -> Seq<u8> {
    spec_u64_to_le_bytes(n).reverse()
}

/// Appends the eight bytes of `n`, high byte first.
pub fn put_u64_be(out: &mut Vec<u8>, n: u64)
    ensures
        final(out)@ == old(out)@ + spec_u64_be(n),
{
    let ghost before = out@;
    let le = u64_to_le_bytes(n);
    let mut i: usize = 8;
    while i > 0
        invariant
            i <= 8,
            le@.len() == 8,
            le@ == spec_u64_to_le_bytes(n),
            out@ == before + le@.reverse().subrange(0, 8 - i),
        decreases i,
    {
        i -= 1;
        out.push(le[i]);
        assert(out@ == before + le@.reverse().subrange(0, 8 - i));
    }
    assert(le@.reverse().subrange(0, 8) == le@.reverse());
}

/// What a rendezvous key is the digest of: the host, then the seconds since
/// 1970 where the clock gave them, then a random number; both numbers in
/// eight bytes, high byte first.
pub open spec fn spec_key_material(domain: Seq<char>, secs: Option<u64>, nonce: u64) -> Seq<u8> {
    encode_utf8(domain) + match secs {
        Some(s) => spec_u64_be(s),
        None => Seq::empty(),
    } + spec_u64_be(nonce)
}

/// The bytes that the rendezvous key for `domain`, made at `secs` with the
/// random number `nonce`, is the digest of.
pub fn key_material(domain: &str, secs: Option<u64>, nonce: u64) -> (bytes: Vec<u8>)
    ensures
        bytes@ == spec_key_material(domain@, secs, nonce),
{
    let mut out: Vec<u8> = Vec::new();
    put_raw(&mut out, domain.as_bytes());
    match secs {
        Some(s) => {
            put_u64_be(&mut out, s);
        },
        None => {
            assert(out@ + Seq::<u8>::empty() == out@);
        },
    }
    put_u64_be(&mut out, nonce);
    out
}

/// Whether `key` is a rendezvous key for `domain`, made at some time with
/// some random number.
pub open spec fn is_key_for(key: Seq<u8>, domain: Seq<char>) -> bool {
    exists|secs: Option<u64>, nonce: u64| key == md5_digest(#[trigger] spec_key_material(domain, secs, nonce))
}

/// The rendezvous key for `domain`, made at `secs` with the random number
/// `nonce`: the MD5 digest of its material, 16 bytes.
pub fn key_for(domain: &str, secs: Option<u64>, nonce: u64) -> (key: Vec<u8>)
    ensures
        key@ == md5_digest(spec_key_material(domain@, secs, nonce)),
        key@.len() == 16,
{
    let material = key_material(domain, secs, nonce);
    md5(material.as_slice())
}

/// Makes a rendezvous key for `domain`, from the clock and a random number:
/// 16 bytes that no other request is likely to get.
pub fn make_key(domain: &str) -> (key: Vec<u8>)
    ensures
        key@.len() == 16,
        is_key_for(key@, domain@),
{
    let secs = match since_epoch() {
        Ok(d) => Some(whole_seconds(&d)),
        Err(_) => None,
    };
    key_for(domain, secs, random_u64())
}

/// What a request from outside for some host leads to.
pub enum Forward<S> {
    /// No client serves the host: answer with `reply`, which is
    /// `bad_gateway`, and close. The slot comes back unused.
    NoClient { slot: S, reply: Status },
    /// The connection waits under the key of `request`: put `request` on the
    /// queue of the session that owns the host. Where a connection waited
    /// under that key already, it has given way, and `displaced` is its slot.
    Waiting { request: Request, displaced: Option<S> },
}

/// Pairs a request from outside for `domain` with a client, under `key`:
/// where a session owns the host, the connection waits in the table, with
/// `slot` as the way to hand it its counterpart.
pub fn open_forward<T, S>(shared: &mut Shared<T, S>, domain: String, key: Vec<u8>, slot: S) -> (r:
    Forward<S>)
    ensures
        final(shared).client@ == old(shared).client@,
        match r {
            Forward::NoClient { slot: back, reply } => {
                &&& !old(shared).client@.contains_key(domain@)
                &&& back == slot
                &&& reply.spec_code() == 502
                &&& reply.spec_reason() == "Bad Gateway"@
                &&& final(shared).conn@ == old(shared).conn@
            },
            Forward::Waiting { request, displaced } => {
                &&& old(shared).client@.contains_key(domain@)
                &&& request.key == key
                &&& request.domain == domain
                &&& final(shared).conn@ == old(shared).conn@.insert(key@, slot)
                &&& displaced == spec_take(old(shared).conn@, key@).1
            },
        },
{
    if shared.client.get(domain.as_str()).is_none() {
        return Forward::NoClient { slot, reply: bad_gateway() };
    }
    let copy = vstd::slice::slice_to_vec(key.as_slice());
    let displaced = shared.conn.add(copy, slot);
    Forward::Waiting { request: Request::new(key, domain), displaced }
}

/// Pairs a request from outside for `domain` with a client, under a fresh
/// key.
pub fn handle_http<T, S>(shared: &mut Shared<T, S>, domain: String, slot: S) -> (r: Forward<S>)
    ensures
        final(shared).client@ == old(shared).client@,
        match r {
            Forward::NoClient { slot: back, reply } => {
                &&& !old(shared).client@.contains_key(domain@)
                &&& back == slot
                &&& reply.spec_code() == 502
                &&& reply.spec_reason() == "Bad Gateway"@
                &&& final(shared).conn@ == old(shared).conn@
            },
            Forward::Waiting { request, displaced } => {
                &&& old(shared).client@.contains_key(domain@)
                &&& request.key@.len() == 16
                &&& is_key_for(request.key@, domain@)
                &&& request.domain == domain
                &&& final(shared).conn@ == old(shared).conn@.insert(request.key@, slot)
                &&& displaced == spec_take(old(shared).conn@, request.key@).1
            },
        },
{
    let key = make_key(domain.as_str());
    open_forward(shared, domain, key, slot)
}

/// What the end of a connection's time to wait leads to.
pub struct Expired<S> {
    /// The slot of the connection, unless a client has come for it in the
    /// meantime.
    pub slot: Option<S>,
    /// What to answer before closing: `gateway_timeout`.
    pub reply: Status,
}

/// Gives up on the connection that waits under `key`, when its time is over:
/// its slot leaves the table.
pub fn expire<T, S>(shared: &mut Shared<T, S>, key: &[u8]) -> (r: Expired<S>)
    ensures
        final(shared).client@ == old(shared).client@,
        (final(shared).conn@, r.slot) == spec_take(old(shared).conn@, key@),
        r.reply.spec_code() == 504,
        r.reply.spec_reason() == "Gateway Timeout"@,
{
    Expired { slot: shared.conn.remove(key), reply: gateway_timeout() }
}

/// No registration without a host: one that names none is refused, and the
/// registry stays as it was.
pub proof fn lemma_empty_refused<T>(registry: Map<Seq<char>, T>, handle: T)
    ensures
        spec_register(registry, Seq::<String>::empty(), handle) == (registry, false),
{
}

/// No host has two owners: once a registration is accepted, one that names
/// any of its hosts is refused, and the registry stays as the first left it.
pub proof fn lemma_overlap_refused<T>(
    registry: Map<Seq<char>, T>,
    first: Seq<String>,
    owner: T,
    second: Seq<String>,
    other: T,
)
    requires
        spec_register(registry, first, owner).1,
        exists|h: Seq<char>| spec_listed(first, h) && spec_listed(second, h),
    ensures
        spec_register(spec_register(registry, first, owner).0, second, other) == (
            spec_register(registry, first, owner).0,
            false,
        ),
        forall|h: Seq<char>|
            spec_listed(first, h) ==> spec_register(registry, first, owner).0.contains_key(h)
                && spec_register(registry, first, owner).0[h] == owner,
{
    let after = spec_register(registry, first, owner).0;
    let h = choose|h: Seq<char>| spec_listed(first, h) && spec_listed(second, h);
    let i = choose|i: int| 0 <= i < second.len() && (#[trigger] second[i])@ == h;
    assert(after.contains_key(second[i]@));
}

/// The hosts of a session that has ended are free again: when an accepted
/// registration has been taken out of the registry, the same hosts are
/// accepted anew.
pub proof fn lemma_register_again<T>(
    registry: Map<Seq<char>, T>,
    domains: Seq<String>,
    owner: T,
    next: T,
)
    requires
        spec_register(registry, domains, owner).1,
    ensures
        spec_register(
            spec_register(registry, domains, owner).0.remove_keys(host_set(domains)),
            domains,
            next,
        ).1,
{
    let freed = spec_register(registry, domains, owner).0.remove_keys(host_set(domains));
    assert forall|i: int| 0 <= i < domains.len() implies !freed.contains_key(
        (#[trigger] domains[i])@,
    ) by {
        assert(spec_listed(domains, domains[i]@));
    }
}

/// To take hosts out of a registry twice is to take them out once.
pub proof fn lemma_remove_twice<T>(registry: Map<Seq<char>, T>, domains: Seq<String>)
    ensures
        registry.remove_keys(host_set(domains)).remove_keys(host_set(domains))
            == registry.remove_keys(host_set(domains)),
{
    assert(registry.remove_keys(host_set(domains)).remove_keys(host_set(domains))
        =~= registry.remove_keys(host_set(domains)));
}

/// A slot is given out once: when a key has been taken out of the table,
/// nothing waits under it, and to take it out again gives nothing and
/// changes nothing.
pub proof fn lemma_taken_once<S>(table: Map<Seq<u8>, S>, key: Seq<u8>)
    ensures
        spec_take(spec_take(table, key).0, key) == (spec_take(table, key).0, None::<S>),
{
    assert(table.remove(key).remove(key) =~= table.remove(key));
}

/// A connection that waits meets exactly one end: of the client that comes
/// for it and the clock that gives up on it, whichever is first gets its
/// slot, and the other gets nothing.
pub proof fn lemma_one_end<S>(table: Map<Seq<u8>, S>, key: Seq<u8>)
    requires
        table.contains_key(key),
    ensures
        spec_take(table, key).1 == Some(table[key]),
        spec_take(spec_take(table, key).0, key).1.is_none(),
{
}

/// A key that nothing waits under leaves the table as it is.
pub proof fn lemma_unknown_key<S>(table: Map<Seq<u8>, S>, key: Seq<u8>)
    requires
        !table.contains_key(key),
    ensures
        table.remove(key) == table,
{
    assert(table.remove(key) =~= table);
}

} // verus!
