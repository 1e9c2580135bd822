//! The endpoint: the handshake on both sides, the demultiplexer that routes
//! inbound datagrams to the connection of their sender, and the queue of
//! connections that wait to be accepted.
//!
//! An endpoint never touches a socket, a clock or a thread. Its caller
//! reads the socket in one loop, started at most once, and hands every
//! datagram to [`Protocol::dispatch`]; it sends what the endpoint hands
//! back, and tells it the time where time matters.

pub mod connection;
pub mod packets;
pub mod routes;

use crate::error::Error;
use crate::protocol::connection::{
    frame, Connection, ConnectionView, Event, RouteUpdate, Verdict, LINGER, RTO,
};
use crate::protocol::packets::{Packet, PacketView};
use crate::protocol::routes::{InboxView, Routes};
use core::hash::Hasher;
use std::collections::hash_map::DefaultHasher;
use std::collections::VecDeque;
use vstd::prelude::*;
use vstd::std_specs::hash::DefaultHasherAdditionalSpecFns;
use vstd::utf8::encode_utf8;

verus! {

/// How many connection requests a handshake sends before it gives up.
pub const MAX_TRANSMIT: u64 = 5;

/// The number that a server uses as its initial sequence towards the peer
/// at `addr`: the digest of the address, so that the server need not
/// remember a request to recognise its completion.
pub open spec fn cookie(addr: Seq<char>) -> u64 {
    DefaultHasher::spec_finish(seq![encode_utf8(addr)])
}

/// The digest of `addr` under the standard hasher in its initial state.
pub fn hash(addr: &String) -> (digest: u64)
    ensures
        digest == cookie(addr@),
{
    let mut s = DefaultHasher::new();
    s.write(addr.as_str().as_bytes());
    s.finish()
}

/// A fresh initial sequence for a connection request, from `rand::random`.
/// Nothing is claimed about the number but that it has sixteen bits.
#[verifier::external_body]
fn random_sequence() -> (sequence: u16) {
    rand::random::<u16>()
}

/// The progress of a client's handshake.
#[derive(Clone, Copy, Debug)]
pub struct Handshake {
    attempts: u64,
    rto: u64,
    sequence: u64,
}

/// The progress of a client's handshake as a mathematical value.
pub ghost struct HandshakeView {
    /// How many connection requests were sent.
    pub attempts: u64,
    /// How long to wait for an answer to the last request, in milliseconds.
    pub rto: u64,
    /// The initial sequence of the last request.
    pub sequence: u64,
}

/// The longest wait after `attempts` requests: the first lasts [`RTO`], and
/// each unanswered request doubles it.
pub open spec fn backoff_cap(attempts: u64) -> int {
    if attempts <= 1 {
        100
    } else if attempts == 2 {
        200
    } else if attempts == 3 {
        400
    } else if attempts == 4 {
        800
    } else {
        1600
    }
}

impl HandshakeView {
    /// A handshake that has sent nothing.
    pub open spec fn fresh() -> HandshakeView {
        HandshakeView { attempts: 0, rto: RTO, sequence: 0 }
    }

    /// The invariant of a handshake.
    pub open spec fn wf(self) -> bool {
        &&& self.attempts <= MAX_TRANSMIT
        &&& self.sequence <= u16::MAX
        &&& RTO <= self.rto <= backoff_cap(self.attempts)
    }

    /// Whether `event` is the start of the handshake: it is, too, while no
    /// request was sent.
    pub open spec fn begins(self, event: Event<Seq<u8>>) -> bool {
        event is Begin || self.attempts == 0
    }

    /// Whether frame `p` is a valid answer to the last request: it has the
    /// SYN and the ACK flag, it acknowledges the request's sequence plus
    /// one, and its own sequence has a successor.
    pub open spec fn answered_by(self, p: PacketView) -> bool {
        &&& p.syn
        &&& p.ack
        &&& p.acked == self.sequence + 1
        &&& p.sequence < u64::MAX
    }

    /// Whether `event` completes the handshake.
    pub open spec fn completes(self, event: Event<Seq<u8>>) -> bool {
        &&& !self.begins(event)
        &&& event matches Event::Arrived(bytes)
        &&& PacketView::decode(bytes) matches Some(p)
        &&& self.answered_by(p)
    }

    /// Whether `event` ends the handshake without a connection: it neither
    /// starts nor completes it, and every request was sent.
    pub open spec fn aborts(self, event: Event<Seq<u8>>) -> bool {
        &&& !self.begins(event)
        &&& !self.completes(event)
        &&& self.attempts >= MAX_TRANSMIT
    }

    /// The handshake after `event`, where `fresh` is the initial sequence
    /// drawn for the next request. The start sends the first request;
    /// silence doubles the wait and sends the next one; a datagram that is
    /// no valid answer sends the next one with the same wait.
    pub open spec fn next(self, event: Event<Seq<u8>>, fresh: u16) -> HandshakeView {
        if self.begins(event) {
            HandshakeView { attempts: 1, rto: RTO, sequence: fresh as u64 }
        } else if self.completes(event) || self.aborts(event) {
            self
        } else {
            HandshakeView {
                attempts: (self.attempts + 1) as u64,
                rto: if event is Silence {
                    (2 * self.rto) as u64
                } else {
                    self.rto
                },
                sequence: fresh as u64,
            }
        }
    }

    /// The frame to send after `event`: the last word of the handshake if
    /// the event completes it, nothing if it aborts it, else the next
    /// request.
    pub open spec fn transmit(self, event: Event<Seq<u8>>, fresh: u16) -> Option<PacketView> {
        if self.completes(event) {
            let p = PacketView::decode(event->Arrived_0)->Some_0;
            Some(PacketView::ack((self.sequence + 1) as u64, (p.sequence + 1) as u64))
        } else if self.aborts(event) {
            None
        } else {
            Some(PacketView::syn(fresh as u64))
        }
    }

    /// Whether `event` ends the handshake with the peer at `addr`, and how.
    pub open spec fn done(self, addr: Seq<char>, event: Event<Seq<u8>>) -> Option<
        Result<ConnectionView, Error>,
    > {
        if self.completes(event) {
            let p = PacketView::decode(event->Arrived_0)->Some_0;
            Some(
                Ok(
                    ConnectionView::fresh(
                        (self.sequence + 1) as u64,
                        (p.sequence + 1) as u64,
                        addr,
                    ),
                ),
            )
        } else if self.aborts(event) {
            Some(Err(Error::ConnectionAborted))
        } else {
            None
        }
    }
}

impl View for Handshake {
    type V = HandshakeView;

    closed spec fn view(&self) -> HandshakeView {
        HandshakeView { attempts: self.attempts, rto: self.rto, sequence: self.sequence }
    }
}

impl Handshake {
    /// A handshake that has sent nothing.
    pub fn new() -> (handshake: Handshake)
        ensures
            handshake@ == HandshakeView::fresh(),
            handshake@.wf(),
    {
        Handshake { attempts: 0, rto: RTO, sequence: 0 }
    }

    /// How many connection requests were sent.
    pub fn get_attempts(&self) -> (attempts: u64)
        ensures
            attempts == self@.attempts,
    {
        self.attempts
    }

    /// How long to wait for an answer to the last request, in milliseconds.
    pub fn get_rto(&self) -> (rto: u64)
        ensures
            rto == self@.rto,
    {
        self.rto
    }

    /// The initial sequence of the last request.
    pub fn get_sequence(&self) -> (sequence: u64)
        ensures
            sequence == self@.sequence,
    {
        self.sequence
    }
}

/// The outcome of one step of `connect`.
#[derive(Debug)]
pub struct ConnectStep {
    /// The frame to send to the peer, if any.
    pub transmit: Option<Packet>,
    /// How long to wait for the next datagram, in milliseconds.
    pub wait: u64,
    /// Whether the caller shall start the loop that reads the socket.
    pub start: bool,
    /// The result of the handshake if it is over; `None` if the caller
    /// shall wait for the next event and step again.
    pub done: Option<Result<Connection, Error>>,
}

/// The outcome of one step of `listen`.
#[derive(Debug)]
pub struct ListenStep {
    /// Whether the caller shall start the loop that reads the socket.
    pub start: bool,
    /// The next accepted connection, or the reason why none will come;
    /// `None` if the caller shall wait for the next dispatch and step again.
    pub done: Option<Result<Connection, Error>>,
}

/// The connection inside a result as a mathematical value.
pub open spec fn established(done: Option<Result<Connection, Error>>) -> Option<
    Result<ConnectionView, Error>,
> {
    match done {
        Some(Ok(connection)) => Some(Ok(connection@)),
        Some(Err(e)) => Some(Err(e)),
        None => None,
    }
}

/// The datagram of `event` as a mathematical value.
pub open spec fn heard(event: Event<Vec<u8>>) -> Event<Seq<u8>> {
    match event {
        Event::Begin => Event::Begin,
        Event::Arrived(bytes) => Event::Arrived(bytes@),
        Event::Silence => Event::Silence,
    }
}

/// The state of one bound socket.
#[derive(Debug)]
pub struct Protocol {
    routes: Routes,
    accepted: VecDeque<Connection>,
    started: bool,
    stopped: bool,
}

/// An endpoint as a mathematical value.
pub ghost struct ProtocolView {
    /// For each peer with a live connection, the frames that wait for it.
    pub routes: Map<Seq<char>, InboxView>,
    /// The inbound connections that completed their handshake and were not
    /// yet handed to the application, oldest first.
    pub accepted: Seq<ConnectionView>,
    /// Whether the loop that reads the socket was started.
    pub started: bool,
    /// Whether the endpoint was stopped.
    pub stopped: bool,
}

/// Whether `p` is a bare connection request: SYN and no other flag.
pub open spec fn bare_syn(p: PacketView) -> bool {
    p.syn && !p.ack && !p.reset && !p.fin
}

/// Whether `p`, from the peer at `src`, completes a handshake: it has the
/// ACK flag and acknowledges the cookie of `src` plus one.
pub open spec fn completion(src: Seq<char>, p: PacketView) -> bool {
    p.ack && p.acked == cookie(src) + 1
}

impl ProtocolView {
    /// The endpoint after it has made the connection to `addr`.
    pub open spec fn connected(self, addr: Seq<char>) -> ProtocolView {
        ProtocolView {
            routes: self.routes.insert(addr, InboxView::fresh()),
            started: true,
            ..self
        }
    }

    /// The endpoint after the datagram `bytes` from `src`.
    ///
    /// A stopped endpoint, a malformed datagram and a bare connection
    /// request change nothing. From a peer without a routing entry only
    /// the completion of a handshake counts: it makes the connection,
    /// queues it for acceptance and gives the peer its routing entry. From
    /// a peer with a routing entry every frame is queued for its
    /// connection.
    pub open spec fn dispatched(self, src: Seq<char>, bytes: Seq<u8>) -> ProtocolView {
        match PacketView::decode(bytes) {
            Some(p) => if self.stopped || bare_syn(p) {
                self
            } else if !self.routes.contains_key(src) {
                if completion(src, p) {
                    ProtocolView {
                        routes: self.routes.insert(src, InboxView::fresh()),
                        accepted: self.accepted.push(
                            ConnectionView::fresh((cookie(src) + 1) as u64, p.sequence, src),
                        ),
                        ..self
                    }
                } else {
                    self
                }
            } else {
                ProtocolView {
                    routes: self.routes.insert(
                        src,
                        InboxView { frames: self.routes[src].frames.push(p), ..self.routes[src] },
                    ),
                    ..self
                }
            },
            None => self,
        }
    }

    /// The frame that goes back to `src` after its datagram `bytes`: the
    /// answer to a bare connection request whose sequence has a successor,
    /// and nothing otherwise.
    pub open spec fn dispatch_reply(self, src: Seq<char>, bytes: Seq<u8>) -> Option<PacketView> {
        match PacketView::decode(bytes) {
            Some(p) => if !self.stopped && bare_syn(p) && p.sequence < u64::MAX {
                Some(PacketView::synack(cookie(src), (p.sequence + 1) as u64))
            } else {
                None
            },
            None => None,
        }
    }

    /// What `listen` has to hand out: the oldest accepted connection; the
    /// error of a stopped endpoint if there is none; nothing yet otherwise.
    pub open spec fn listen_done(self) -> Option<Result<ConnectionView, Error>> {
        if self.accepted.len() > 0 {
            Some(Ok(self.accepted[0]))
        } else if self.stopped {
            Some(Err(Error::NotConnected))
        } else {
            None
        }
    }

    /// The endpoint after a step of `listen`.
    pub open spec fn listened(self) -> ProtocolView {
        ProtocolView {
            accepted: if self.accepted.len() > 0 {
                self.accepted.drop_first()
            } else {
                self.accepted
            },
            started: true,
            ..self
        }
    }

    /// The routing table after `update` for the peer at `addr` at time
    /// `now`, in milliseconds.
    pub open spec fn updated(self, addr: Seq<char>, update: RouteUpdate, now: u64) -> ProtocolView {
        match update {
            RouteUpdate::Keep => self,
            RouteUpdate::Remove => ProtocolView { routes: self.routes.remove(addr), ..self },
            RouteUpdate::Linger => if self.routes.contains_key(addr) {
                ProtocolView {
                    routes: self.routes.insert(
                        addr,
                        InboxView { lingering: Some(now), ..self.routes[addr] },
                    ),
                    ..self
                }
            } else {
                self
            },
        }
    }

    /// The endpoint without the routing entries whose linger is over at
    /// time `now`.
    pub open spec fn expired(self, now: u64) -> ProtocolView {
        ProtocolView {
            routes: self.routes.remove_keys(
                Set::new(
                    |addr: Seq<char>|
                        self.routes.contains_key(addr) && self.routes[addr].expired(now),
                ),
            ),
            ..self
        }
    }
}

/// What a step of `connect` computes, where `fresh` is the initial sequence
/// drawn for the next request: the handshake moves on; the completion
/// makes the connection, gives the peer its routing entry and asks for the
/// loop if it does not run yet.
pub open spec fn connect_step(
    before: ProtocolView,
    handshake: HandshakeView,
    addr: Seq<char>,
    event: Event<Seq<u8>>,
    fresh: u16,
    after: ProtocolView,
    moved: HandshakeView,
    step: ConnectStep,
) -> bool {
    &&& moved == handshake.next(event, fresh)
    &&& after == if handshake.completes(event) {
        before.connected(addr)
    } else {
        before
    }
    &&& frame(step.transmit) == handshake.transmit(event, fresh)
    &&& step.wait == moved.rto
    &&& step.start == (handshake.completes(event) && !before.started)
    &&& established(step.done) == handshake.done(addr, event)
}

/// A frame that is no bare connection request, from a peer without a
/// routing entry, makes a connection only if it acknowledges the cookie of
/// that peer plus one; any other such frame is dropped, and the endpoint
/// stays as it was.
pub proof fn lemma_handshake_rejection(e: ProtocolView, src: Seq<char>, bytes: Seq<u8>)
    requires
        !e.routes.contains_key(src),
        PacketView::decode(bytes) matches Some(p) ==> !completion(src, p),
    ensures
        e.dispatched(src, bytes) == e,
        PacketView::decode(bytes) matches Some(p) ==> !bare_syn(p) ==> e.dispatch_reply(src, bytes)
            is None,
{
}

/// The completion of a handshake makes exactly one connection, whose send
/// offset is the cookie plus one and whose receive offset is the sequence
/// of the completing frame.
pub proof fn lemma_handshake_completion(e: ProtocolView, src: Seq<char>, bytes: Seq<u8>)
    requires
        !e.stopped,
        !e.routes.contains_key(src),
        PacketView::decode(bytes) matches Some(p) && !bare_syn(p) && completion(src, p),
    ensures
        e.dispatched(src, bytes).routes.contains_key(src),
        e.dispatched(src, bytes).accepted == e.accepted.push(
            ConnectionView::fresh(
                (cookie(src) + 1) as u64,
                PacketView::decode(bytes)->Some_0.sequence,
                src,
            ),
        ),
{
}

/// A bare connection request never changes the endpoint, however many
/// arrive.
pub proof fn lemma_syn_is_stateless(e: ProtocolView, src: Seq<char>, bytes: Seq<u8>)
    requires
        PacketView::decode(bytes) matches Some(p) && bare_syn(p),
    ensures
        e.dispatched(src, bytes) == e,
{
}

/// A routing entry whose linger began at time `since` outlives every
/// expiry before `since + LINGER`, and no expiry from then on.
pub proof fn lemma_linger(e: ProtocolView, addr: Seq<char>, since: u64, now: u64)
    requires
        e.routes.contains_key(addr),
    ensures
        now - since < LINGER ==> e.updated(addr, RouteUpdate::Linger, since).expired(
            now,
        ).routes.contains_key(addr),
        now - since >= LINGER ==> !e.updated(addr, RouteUpdate::Linger, since).expired(
            now,
        ).routes.contains_key(addr),
        !e.updated(addr, RouteUpdate::Remove, since).routes.contains_key(addr),
        e.updated(addr, RouteUpdate::Keep, since) == e,
{
}

/// The linger after both sides have closed: when the local side has
/// closed and the peer's closing frame comes in order at time `at`, the
/// connection counts the peer's side as closed and asks for the linger;
/// the routing entry is then still there at every time before
/// `at + LINGER`, and gone at every expiry from then on.
pub proof fn lemma_fin_after_close_lingers(
    e: ProtocolView,
    c: ConnectionView,
    p: PacketView,
    at: u64,
    now: u64,
)
    requires
        c.sent_fin,
        p.fin,
        !p.reset,
        !(p.ack && p.acked > c.sequence),
        p.sequence == c.ack,
        p.consistent(),
        c.ack < u64::MAX,
        e.routes.contains_key(c.addr),
    ensures
        c.verdict(p) == Verdict::Finished,
        c.received(p).received_fin,
        c.received(p).sent_fin,
        c.route(p) == RouteUpdate::Linger,
        e.updated(c.addr, c.route(p), at).routes.contains_key(c.addr),
        now - at < LINGER ==> e.updated(c.addr, c.route(p), at).expired(now).routes.contains_key(
            c.addr,
        ),
        now - at >= LINGER ==> !e.updated(c.addr, c.route(p), at).expired(
            now,
        ).routes.contains_key(c.addr),
{
    lemma_linger(e, c.addr, at, now);
}

/// A routing entry that does not linger outlives every expiry.
pub proof fn lemma_expire_keeps(e: ProtocolView, addr: Seq<char>, now: u64)
    requires
        e.routes.contains_key(addr),
        e.routes[addr].lingering is None,
    ensures
        e.expired(now).routes.contains_key(addr),
        e.expired(now).routes[addr] == e.routes[addr],
{
}

impl View for Protocol {
    type V = ProtocolView;

    closed spec fn view(&self) -> ProtocolView {
        ProtocolView {
            routes: self.routes@,
            accepted: Seq::new(self.accepted@.len(), |i: int| self.accepted@[i]@),
            started: self.started,
            stopped: self.stopped,
        }
    }
}

impl Protocol {
    /// The invariant of an endpoint: a peer has at most one routing entry,
    /// and every connection that waits for acceptance is well formed.
    pub closed spec fn wf(&self) -> bool {
        &&& self.routes.wf()
        &&& forall|i: int| 0 <= i < self.accepted@.len() ==> (#[trigger] self.accepted@[i])@.wf()
    }

    /// An endpoint without peers, whose loop was not started.
    pub fn new() -> (protocol: Protocol)
        ensures
            protocol.wf(),
            protocol@ == (ProtocolView {
                routes: Map::empty(),
                accepted: Seq::empty(),
                started: false,
                stopped: false,
            }),
    {
        let protocol = Protocol {
            routes: Routes::new(),
            accepted: VecDeque::new(),
            started: false,
            stopped: false,
        };
        assert(protocol@.accepted =~= Seq::empty());
        protocol
    }

    /// Whether the endpoint was stopped.
    pub fn is_stopped(&self) -> (stopped: bool)
        ensures
            stopped == self@.stopped,
    {
        self.stopped
    }

    /// Whether the peer at `addr` has a routing entry.
    pub fn is_routed(&self, addr: &String) -> (routed: bool)
        requires
            self.wf(),
        ensures
            routed == self@.routes.contains_key(addr@),
    {
        self.routes.contains(addr)
    }

    /// One step of the handshake with the server at `addr`.
    ///
    /// The caller starts with [`Event::Begin`] and a new [`Handshake`].
    /// After each step it sends `step.transmit` to `addr`, starts the loop
    /// that reads the socket if `step.start` says so, and, unless
    /// `step.done` ends the handshake, waits up to `step.wait`
    /// milliseconds for a datagram and steps again with what it got.
    ///
    /// The initial sequence of each request is drawn at random, so the
    /// outcome is stated for whichever number was drawn.
    pub fn connect(&mut self, addr: String, handshake: &mut Handshake, event: Event<Vec<u8>>) -> (step:
        ConnectStep)
        requires
            old(self).wf(),
            old(handshake)@.wf(),
        ensures
            final(self).wf(),
            final(handshake)@.wf(),
            exists|fresh: u16|
                connect_step(
                    old(self)@,
                    old(handshake)@,
                    addr@,
                    heard(event),
                    fresh,
                    final(self)@,
                    final(handshake)@,
                    step,
                ),
    {
        let fresh = random_sequence();
        self.connect_with(addr, handshake, event, fresh)
    }

    /// One step of the handshake with the server at `addr`, where `fresh`
    /// is the initial sequence to use if the step sends a request.
    pub fn connect_with(
        &mut self,
        addr: String,
        handshake: &mut Handshake,
        event: Event<Vec<u8>>,
        fresh: u16,
    ) -> (step: ConnectStep)
        requires
            old(self).wf(),
            old(handshake)@.wf(),
        ensures
            final(self).wf(),
            final(handshake)@.wf(),
            connect_step(
                old(self)@,
                old(handshake)@,
                addr@,
                heard(event),
                fresh,
                final(self)@,
                final(handshake)@,
                step,
            ),
    {
        let mut silence = false;
        if handshake.attempts > 0 {
            match event {
                Event::Begin => {
                    handshake.attempts = 0;
                },
                Event::Arrived(bytes) => {
                    match Packet::from_bytes(bytes) {
                        Ok(synack) => {
                            if synack.is_syn() && synack.is_ack() && handshake.sequence + 1
                                == synack.get_acked() && synack.get_sequence() < u64::MAX {
                                let connection = Connection::new(
                                    handshake.sequence + 1,
                                    synack.get_sequence() + 1,
                                    addr.clone(),
                                );
                                let ack = Packet::new_ack(
                                    handshake.sequence + 1,
                                    synack.get_sequence() + 1,
                                );
                                let start = self.receive_loop(Some(addr));
                                return ConnectStep {
                                    transmit: Some(ack),
                                    wait: handshake.rto,
                                    start,
                                    done: Some(Ok(connection)),
                                };
                            }
                        },
                        Err(_) => {},
                    }
                },
                Event::Silence => {
                    silence = true;
                },
            }
        }
        if handshake.attempts == 0 {
            handshake.attempts = 1;
            handshake.rto = RTO;
        } else if handshake.attempts >= MAX_TRANSMIT {
            return ConnectStep {
                transmit: None,
                wait: handshake.rto,
                start: false,
                done: Some(Err(Error::ConnectionAborted)),
            };
        } else {
            handshake.attempts = handshake.attempts + 1;
            if silence {
                handshake.rto = 2 * handshake.rto;
            }
        }
        handshake.sequence = fresh as u64;
        ConnectStep {
            transmit: Some(Packet::new_syn(fresh as u64)),
            wait: handshake.rto,
            start: false,
            done: None,
        }
    }

    /// Marks the loop that reads the socket as started, and says whether
    /// the caller shall start it now: only the first call says so. The
    /// peer in `conn`, if any, gets a fresh routing entry.
    pub fn receive_loop(&mut self, conn: Option<String>) -> (start: bool)
        requires
            old(self).wf(),
        ensures
            final(self).wf(),
            start == !old(self)@.started,
            final(self)@ == match conn {
                Some(addr) => old(self)@.connected(addr@),
                None => ProtocolView { started: true, ..old(self)@ },
            },
    {
        let start = !self.started;
        self.started = true;
        match conn {
            Some(addr) => {
                self.routes.insert(addr);
            },
            None => {},
        }
        start
    }

    /// Takes in the datagram that arrived from `src`, and hands back the
    /// frame to send to `src`, if any.
    ///
    /// A frame that does not complete a handshake, from a peer without a
    /// routing entry, makes no connection and leaves the endpoint as it
    /// was. A reset is queued like any other frame: whether it is stale is
    /// for the connection to say, which then asks for the removal of the
    /// routing entry.
    pub fn dispatch(&mut self, src: String, datagram: Vec<u8>) -> (reply: Option<Packet>)
        requires
            old(self).wf(),
        ensures
            final(self).wf(),
            final(self)@ == old(self)@.dispatched(src@, datagram@),
            frame(reply) == old(self)@.dispatch_reply(src@, datagram@),
            final(self)@.started == old(self)@.started,
            final(self)@.stopped == old(self)@.stopped,
    {
        let received = match Packet::from_bytes(datagram) {
            Ok(received) => received,
            Err(_) => {
                return None;
            },
        };
        if self.stopped {
            return None;
        }
        if received.is_syn() && !received.is_ack() && !received.is_reset() && !received.is_fin() {
            if received.get_sequence() == u64::MAX {
                return None;
            }
            let seq = hash(&src);
            return Some(Packet::new_synack(seq, received.get_sequence() + 1));
        }
        if !self.routes.contains(&src) {
            if !received.is_ack() {
                return None;
            }
            let hashed = hash(&src);
            if hashed == u64::MAX || received.get_acked() != hashed + 1 {
                return None;
            }
            let connection = Connection::new(hashed + 1, received.get_sequence(), src.clone());
            let ghost queued = self@.accepted;
            self.accepted.push_back(connection);
            assert(self@.accepted =~= queued.push(connection@));
            self.routes.insert(src);
        } else {
            self.routes.push(&src, received);
        }
        None
    }

    /// One step of accepting a connection: hands out the oldest connection
    /// that completed its handshake.
    ///
    /// The caller starts the loop that reads the socket if `step.start`
    /// says so, and, unless `step.done` ends the wait, steps again after
    /// the next dispatch.
    pub fn listen(&mut self) -> (step: ListenStep)
        requires
            old(self).wf(),
        ensures
            final(self).wf(),
            final(self)@ == old(self)@.listened(),
            step.start == !old(self)@.started,
            established(step.done) == old(self)@.listen_done(),
            step.done matches Some(Ok(connection)) ==> connection@.wf(),
    {
        let start = self.receive_loop(None);
        let ghost queued = self@.accepted;
        let ghost waiting = self.accepted@;
        let done = match self.accepted.pop_front() {
            Some(connection) => {
                assert(connection == waiting[0]);
                assert(self@.accepted =~= queued.drop_first());
                assert(connection@ == queued[0]);
                Some(Ok(connection))
            },
            None => {
                assert(self@.accepted =~= queued);
                if self.stopped {
                    Some(Err(Error::NotConnected))
                } else {
                    None
                }
            },
        };
        ListenStep { start, done }
    }

    /// Stops the endpoint: from now on it drops every datagram, and
    /// `listen` fails once the accepted connections are handed out. Says
    /// whether a running loop has to be told.
    pub fn stop(&mut self) -> (running: bool)
        requires
            old(self).wf(),
        ensures
            final(self).wf(),
            final(self)@ == (ProtocolView { stopped: true, ..old(self)@ }),
            running == (old(self)@.started && !old(self)@.stopped),
    {
        let running = self.started && !self.stopped;
        self.stopped = true;
        running
    }

    /// The next event for the connection with the peer at `addr`, if one
    /// is known: the oldest frame that waits for it; silence, if the peer
    /// has no routing entry, since then nothing can arrive; and `None`
    /// while no frame waits.
    pub fn next_frame(&mut self, addr: &String) -> (event: Option<Event<Packet>>)
        requires
            old(self).wf(),
        ensures
            final(self).wf(),
            !old(self)@.routes.contains_key(addr@) ==> (event matches Some(Event::Silence))
                && final(self)@ == old(self)@,
            old(self)@.routes.contains_key(addr@) && old(self)@.routes[addr@].frames.len() == 0
                ==> (event is None) && final(self)@ == old(self)@,
            old(self)@.routes.contains_key(addr@) && old(self)@.routes[addr@].frames.len() > 0
                ==> {
                &&& event matches Some(Event::Arrived(p))
                &&& p@ == old(self)@.routes[addr@].frames[0]
                &&& final(self)@ == (ProtocolView {
                    routes: old(self)@.routes.insert(
                        addr@,
                        InboxView {
                            frames: old(self)@.routes[addr@].frames.drop_first(),
                            ..old(self)@.routes[addr@]
                        },
                    ),
                    ..old(self)@
                })
            },
    {
        self.routes.pop(addr)
    }

    /// Does to the routing entry of the peer at `addr` what a connection
    /// asked for, at time `now` in milliseconds.
    pub fn update_route(&mut self, addr: &String, update: RouteUpdate, now: u64)
        requires
            old(self).wf(),
        ensures
            final(self).wf(),
            final(self)@ == old(self)@.updated(addr@, update, now),
    {
        match update {
            RouteUpdate::Keep => {},
            RouteUpdate::Remove => {
                self.routes.remove(addr);
            },
            RouteUpdate::Linger => {
                self.routes.linger(addr, now);
            },
        }
    }

    /// Removes the routing entries whose linger is over at time `now`, in
    /// milliseconds, and says how many there were.
    pub fn expire(&mut self, now: u64) -> (removed: usize)
        requires
            old(self).wf(),
        ensures
            final(self).wf(),
            final(self)@ == old(self)@.expired(now),
            removed == old(self)@.routes.dom().len() - final(self)@.routes.dom().len(),
    {
        self.routes.expire(now)
    }
}

} // verus!
