//! One peer session: the go-back-n sender, the in-order receiver and the
//! teardown, as a state machine.
//!
//! A connection never touches a socket or a clock. Each operation that would
//! wait is a step: the caller hands in what it observed while waiting (an
//! [`Event`]) and gets back what to put on the wire, what to do with the
//! peer's routing entry, and whether the operation is over (a [`Step`]).

pub mod segmentation;

use crate::error::Error;
use crate::protocol::packets::{Packet, PacketView};
use std::collections::VecDeque;
use vstd::prelude::*;
use vstd::slice::{slice_subrange, slice_to_vec};

verus! {

/// Largest payload of one data frame, in bytes.
pub const MAX_SIZE: usize = 2560;

/// The flow-control window: four full data frames.
pub const WINDOW: u64 = 10240;

/// Retransmission timeout of an established connection, in milliseconds.
pub const RTO: u64 = 100;

/// Maximum segment lifetime, in milliseconds.
pub const MSL: u64 = 120_000;

/// How long a routing entry outlives a connection that both sides have
/// closed: twice the maximum segment lifetime, in milliseconds.
pub const LINGER: u64 = 240_000;

/// What the caller observed since the previous step of an operation.
#[derive(Debug)]
pub enum Event<T> {
    /// Nothing yet: the operation starts.
    Begin,
    /// This arrived.
    Arrived(T),
    /// Nothing arrived: the wait timed out, or nothing can arrive any more.
    Silence,
}

/// What became of an inbound frame.
#[derive(Clone, Copy, Debug, PartialEq, Eq, Structural)]
pub enum Verdict {
    /// A cumulative acknowledgement moved the send window forward.
    Acked,
    /// In-order payload was accepted and queued for the application.
    Delivered,
    /// The frame was not the next expected one; the current
    /// acknowledgement was emitted again.
    Duplicate,
    /// A stale reset or an acknowledgement of nothing new: no effect.
    Discarded,
    /// The peer closed its side of the stream.
    Finished,
    /// The peer reset the connection.
    Reset,
    /// There was no frame.
    Silence,
}

/// What the endpoint shall do with the routing entry of a peer.
#[derive(Clone, Copy, Debug, PartialEq, Eq, Structural)]
pub enum RouteUpdate {
    /// Leave it.
    Keep,
    /// Remove it now.
    Remove,
    /// Remove it once [`LINGER`] milliseconds have passed.
    Linger,
}

/// The outcome of handing one inbound frame to a connection.
#[derive(Debug)]
pub struct Reaction {
    /// What became of the frame.
    pub verdict: Verdict,
    /// The frame to send back to the peer, if any.
    pub reply: Option<Packet>,
    /// What to do with the peer's routing entry.
    pub route: RouteUpdate,
}

/// The outcome of one step of `send`, `recv` or `close`.
#[derive(Debug)]
pub struct Step<T> {
    /// The frames to send to the peer, in this order.
    pub transmit: Vec<Packet>,
    /// What to do with the peer's routing entry.
    pub route: RouteUpdate,
    /// How long to wait for the next frame at most, in milliseconds;
    /// `None` if the wait has no limit, or if the operation is over.
    pub wait: Option<u64>,
    /// The result of the operation if it is over; `None` if the caller
    /// shall wait for the next event and step again.
    pub done: Option<T>,
}

/// The per-peer state of the protocol.
#[derive(Debug)]
pub struct Connection {
    addr: String,
    sequence: u64,
    ack: u64,
    window: u64,
    in_flight: u64,
    sent_fin: bool,
    received_fin: bool,
    buffer: VecDeque<Vec<u8>>,
}

/// A connection as a mathematical value.
pub ghost struct ConnectionView {
    /// The peer.
    pub addr: Seq<char>,
    /// Lowest offset of the local stream that the peer has not acknowledged.
    pub sequence: u64,
    /// Next offset expected from the peer.
    pub ack: u64,
    /// The flow-control window.
    pub window: u64,
    /// Bytes sent and not yet acknowledged.
    pub in_flight: u64,
    /// Whether the local side has closed its stream.
    pub sent_fin: bool,
    /// Whether the peer has closed its stream.
    pub received_fin: bool,
    /// Payloads accepted and not yet read by the application, oldest first.
    pub buffer: Seq<Seq<u8>>,
}

/// The frames of `v` as mathematical values.
pub open spec fn frames(v: Seq<Packet>) -> Seq<PacketView> {
    Seq::new(v.len(), |i: int| v[i]@)
}

/// The frame inside `o` as a mathematical value, if there is one.
pub open spec fn frame(o: Option<Packet>) -> Option<PacketView> {
    match o {
        Some(p) => Some(p@),
        None => None,
    }
}

/// `o` as a sequence of at most one element.
pub open spec fn optional<A>(o: Option<A>) -> Seq<A> {
    match o {
        Some(a) => seq![a],
        None => Seq::empty(),
    }
}

/// How many offsets of the stream a frame takes up: a closing frame one,
/// any other the size that its header announces.
pub open spec fn consumed(p: PacketView) -> int {
    if p.fin {
        1
    } else {
        p.size as int
    }
}

impl ConnectionView {
    /// A fresh connection: nothing in flight, nothing closed, nothing queued.
    pub open spec fn fresh(sequence: u64, ack: u64, addr: Seq<char>) -> ConnectionView {
        ConnectionView {
            addr,
            sequence,
            ack,
            window: WINDOW,
            in_flight: 0,
            sent_fin: false,
            received_fin: false,
            buffer: Seq::empty(),
        }
    }

    /// The invariant of a connection: the window is the fixed one, what is
    /// in flight fits in it, and the offset of the next byte to send is a
    /// 64-bit number.
    pub open spec fn wf(self) -> bool {
        &&& self.window == WINDOW
        &&& self.in_flight <= self.window
        &&& self.sequence + self.in_flight <= u64::MAX
    }

    /// Offset in the local stream of the next byte to put on the wire.
    pub open spec fn next(self) -> int {
        self.sequence + self.in_flight
    }

    /// Whether one more data frame of a transfer can be sent: the transfer
    /// of `len` bytes began at offset `init`, it has bytes that were not
    /// sent yet, and the window has room.
    pub open spec fn can_send(self, len: nat, init: u64) -> bool {
        &&& init <= self.next() < init + len
        &&& self.in_flight < self.window
    }

    /// Payload size of the next data frame of a transfer: what is left of
    /// the content, at most a full frame, at most the room in the window.
    pub open spec fn segment_size(self, len: nat, init: u64) -> int {
        let left = init + len - self.next();
        let room = self.window - self.in_flight;
        if left <= MAX_SIZE && left <= room {
            left
        } else if MAX_SIZE <= room {
            MAX_SIZE as int
        } else {
            room
        }
    }

    /// The next data frame of a transfer of `content` that began at `init`.
    pub open spec fn next_segment(self, content: Seq<u8>, init: u64) -> PacketView {
        let offset = self.next() - init;
        PacketView::data(
            content.subrange(offset, offset + self.segment_size(content.len(), init)),
            self.next() as u64,
        )
    }

    /// This connection with `size` more bytes in flight.
    pub open spec fn sent(self, size: int) -> ConnectionView {
        ConnectionView { in_flight: (self.in_flight + size) as u64, ..self }
    }

    /// The data frames that fill the window: one after the other while
    /// content is left and the window has room.
    pub open spec fn window_fill(self, content: Seq<u8>, init: u64) -> Seq<PacketView>
        decreases self.window - self.in_flight,
    {
        if self.can_send(content.len(), init) && self.wf() {
            seq![self.next_segment(content, init)] + self.sent(
                self.segment_size(content.len(), init),
            ).window_fill(content, init)
        } else {
            Seq::empty()
        }
    }

    /// This connection once the window is filled.
    pub open spec fn filled(self, content: Seq<u8>, init: u64) -> ConnectionView
        decreases self.window - self.in_flight,
    {
        if self.can_send(content.len(), init) && self.wf() {
            self.sent(self.segment_size(content.len(), init)).filled(content, init)
        } else {
            self
        }
    }

    /// Whether `p` is the next frame of the peer's stream: it begins at
    /// the receive offset, its payload is as long as its header says, and
    /// its end is still a 64-bit offset.
    pub open spec fn in_order(self, p: PacketView) -> bool {
        &&& p.sequence == self.ack
        &&& p.consistent()
        &&& self.ack + consumed(p) <= u64::MAX
    }

    /// What becomes of inbound frame `p`. The first rule that applies
    /// decides:
    /// a reset counts if it is not older than what was received, and is
    /// discarded otherwise; an acknowledgement of more than was
    /// acknowledged moves the window; a closing frame in order closes the
    /// peer's stream; an acknowledgement without payload is discarded;
    /// any other frame in order is delivered; what is left is a duplicate.
    pub open spec fn verdict(self, p: PacketView) -> Verdict {
        if p.reset {
            if p.sequence >= self.ack {
                Verdict::Reset
            } else {
                Verdict::Discarded
            }
        } else if p.ack && p.acked > self.sequence {
            Verdict::Acked
        } else if p.fin {
            if self.in_order(p) {
                Verdict::Finished
            } else {
                Verdict::Duplicate
            }
        } else if p.ack && p.size == 0 {
            Verdict::Discarded
        } else if self.in_order(p) {
            Verdict::Delivered
        } else {
            Verdict::Duplicate
        }
    }

    /// The connection after inbound frame `p`.
    pub open spec fn received(self, p: PacketView) -> ConnectionView {
        match self.verdict(p) {
            Verdict::Acked => {
                let delta = p.acked - self.sequence;
                ConnectionView {
                    sequence: p.acked,
                    in_flight: if delta <= self.in_flight {
                        (self.in_flight - delta) as u64
                    } else {
                        0
                    },
                    ..self
                }
            },
            Verdict::Delivered => ConnectionView {
                ack: (self.ack + p.size) as u64,
                buffer: self.buffer.push(p.content),
                ..self
            },
            Verdict::Finished => ConnectionView { received_fin: true, ..self },
            _ => self,
        }
    }

    /// The frame that goes back to the peer after inbound frame `p`: the
    /// cumulative acknowledgement after payload or a closing frame, the
    /// current one after a duplicate, and nothing otherwise.
    pub open spec fn reply(self, p: PacketView) -> Option<PacketView> {
        match self.verdict(p) {
            Verdict::Delivered => Some(PacketView::ack(self.sequence, (self.ack + p.size) as u64)),
            Verdict::Finished => Some(PacketView::ack(self.sequence, (self.ack + 1) as u64)),
            Verdict::Duplicate => Some(PacketView::ack(self.sequence, self.ack)),
            _ => None,
        }
    }

    /// What inbound frame `p` means for the routing entry: a reset removes
    /// it at once, the peer's closing frame after the local one starts the
    /// linger, anything else leaves it.
    pub open spec fn route(self, p: PacketView) -> RouteUpdate {
        match self.verdict(p) {
            Verdict::Reset => RouteUpdate::Remove,
            Verdict::Finished => if self.sent_fin {
                RouteUpdate::Linger
            } else {
                RouteUpdate::Keep
            },
            _ => RouteUpdate::Keep,
        }
    }
}


impl ConnectionView {
    /// The connection after a retransmission timeout: everything in flight
    /// is presumed lost.
    pub open spec fn timed_out(self) -> ConnectionView {
        ConnectionView { in_flight: 0, ..self }
    }

    /// The connection after taking in the frame of `event`, if it has one.
    pub open spec fn taken(self, event: Event<PacketView>) -> ConnectionView {
        match event {
            Event::Arrived(p) => self.received(p),
            _ => self,
        }
    }

    /// What becomes of the frame of `event`.
    pub open spec fn judged(self, event: Event<PacketView>) -> Verdict {
        match event {
            Event::Arrived(p) => self.verdict(p),
            _ => Verdict::Silence,
        }
    }

    /// The frame that answers the frame of `event`, if any.
    pub open spec fn answer(self, event: Event<PacketView>) -> Seq<PacketView> {
        match event {
            Event::Arrived(p) => optional(self.reply(p)),
            _ => Seq::empty(),
        }
    }

    /// What the frame of `event` means for the routing entry.
    pub open spec fn routed(self, event: Event<PacketView>) -> RouteUpdate {
        match event {
            Event::Arrived(p) => self.route(p),
            _ => RouteUpdate::Keep,
        }
    }

    /// The sender after `event` and before it sends again: a frame is taken
    /// in, and silence empties the window.
    pub open spec fn send_observed(self, event: Event<PacketView>) -> ConnectionView {
        match event {
            Event::Silence => self.timed_out(),
            _ => self.taken(event),
        }
    }

    /// Whether a step of a transfer of `len` bytes that began at `init`
    /// ends it, and how: a reset fails it, and it succeeds once every byte
    /// is acknowledged.
    pub open spec fn send_done(self, len: nat, init: u64, event: Event<PacketView>) -> Option<
        Result<(), Error>,
    > {
        if self.judged(event) == Verdict::Reset {
            Some(Err(Error::ConnectionReset))
        } else if self.send_observed(event).sequence >= init + len {
            Some(Ok(()))
        } else {
            None
        }
    }

    /// The frames that a step of a transfer puts on the wire: the answer to
    /// the inbound frame, then, unless the transfer is over, the data
    /// frames that fill the window.
    pub open spec fn send_transmit(
        self,
        content: Seq<u8>,
        init: u64,
        event: Event<PacketView>,
    ) -> Seq<PacketView> {
        if self.send_done(content.len(), init, event) is None {
            self.answer(event) + self.send_observed(event).window_fill(content, init)
        } else {
            self.answer(event)
        }
    }

    /// The connection after a step of a transfer.
    pub open spec fn sending(
        self,
        content: Seq<u8>,
        init: u64,
        event: Event<PacketView>,
    ) -> ConnectionView {
        if self.send_done(content.len(), init, event) is None {
            self.send_observed(event).filled(content, init)
        } else {
            self.send_observed(event)
        }
    }

    /// Whether a step of `recv` goes on waiting: at the start while nothing
    /// is queued, and after a frame that brought neither payload nor an end.
    pub open spec fn recv_waits(self, event: Event<PacketView>) -> bool {
        match event {
            Event::Begin => self.buffer.len() == 0,
            Event::Arrived(p) => {
                let v = self.verdict(p);
                v == Verdict::Acked || v == Verdict::Discarded || v == Verdict::Duplicate
            },
            Event::Silence => false,
        }
    }

    /// Whether a step of `recv` ends it, and how: with the oldest queued
    /// payload if there is one, else with the reason why none will come.
    pub open spec fn recv_done(self, event: Event<PacketView>) -> Option<Result<Seq<u8>, Error>> {
        let after = self.taken(event);
        if self.recv_waits(event) {
            None
        } else if after.buffer.len() > 0 {
            Some(Ok(after.buffer[0]))
        } else if self.judged(event) == Verdict::Reset {
            Some(Err(Error::ConnectionReset))
        } else {
            Some(Err(Error::EndOfStream))
        }
    }

    /// The connection after a step of `recv`.
    pub open spec fn receiving(self, event: Event<PacketView>) -> ConnectionView {
        let after = self.taken(event);
        if !self.recv_waits(event) && after.buffer.len() > 0 {
            ConnectionView { buffer: after.buffer.drop_first(), ..after }
        } else {
            after
        }
    }

    /// Whether a step of `close` ends it: silence does, and so does a frame
    /// that acknowledges the closing frame, closes the peer's side or
    /// resets the connection.
    pub open spec fn close_done(self, event: Event<PacketView>) -> bool {
        match event {
            Event::Begin => false,
            Event::Arrived(p) => {
                let v = self.verdict(p);
                v == Verdict::Acked || v == Verdict::Finished || v == Verdict::Reset
            },
            Event::Silence => true,
        }
    }

    /// The connection after a step of `close`: when the step ends it, the
    /// local side counts as closed.
    pub open spec fn closing(self, event: Event<PacketView>) -> ConnectionView {
        let after = self.taken(event);
        if self.close_done(event) {
            ConnectionView { sent_fin: true, ..after }
        } else {
            after
        }
    }

    /// The frames that a step of `close` puts on the wire: the answer to
    /// the inbound frame, then, unless the step ends it, the closing frame.
    pub open spec fn close_transmit(self, event: Event<PacketView>) -> Seq<PacketView> {
        if self.close_done(event) {
            self.answer(event)
        } else {
            self.answer(event).push(PacketView::fin(self.taken(event).sequence))
        }
    }

    /// What a step of `close` means for the routing entry: a reset removes
    /// it at once; once both sides have closed, the linger starts.
    pub open spec fn close_route(self, event: Event<PacketView>) -> RouteUpdate {
        if self.judged(event) == Verdict::Reset {
            RouteUpdate::Remove
        } else if self.close_done(event) && self.taken(event).received_fin {
            RouteUpdate::Linger
        } else {
            RouteUpdate::Keep
        }
    }
}

/// Filling the window changes nothing but what is in flight, which can
/// only grow; and as many bytes go on the wire as come to be in flight.
pub proof fn lemma_filled(c: ConnectionView, content: Seq<u8>, init: u64)
    requires
        c.wf(),
        init + content.len() <= u64::MAX,
    ensures
        c.filled(content, init) == c.sent(c.filled(content, init).in_flight - c.in_flight),
        c.filled(content, init).in_flight >= c.in_flight,
        c.filled(content, init).wf(),
        !c.filled(content, init).can_send(content.len(), init),
    decreases c.window - c.in_flight,
{
    if c.can_send(content.len(), init) {
        lemma_filled(c.sent(c.segment_size(content.len(), init)), content, init);
    }
}

/// Neither offset of a connection ever moves backward: not by a frame, and
/// not by a step of a transfer, a read or a close.
pub proof fn lemma_offsets_monotonic(
    c: ConnectionView,
    content: Seq<u8>,
    init: u64,
    event: Event<PacketView>,
)
    requires
        c.wf(),
        init + content.len() <= u64::MAX,
    ensures
        c.taken(event).sequence >= c.sequence,
        c.taken(event).ack >= c.ack,
        c.sending(content, init, event).sequence >= c.sequence,
        c.sending(content, init, event).ack >= c.ack,
        c.receiving(event).sequence >= c.sequence,
        c.receiving(event).ack >= c.ack,
        c.closing(event).sequence >= c.sequence,
        c.closing(event).ack >= c.ack,
{
    lemma_received_wf(c, event);
    lemma_filled(c.send_observed(event), content, init);
}

/// A frame leaves a well-formed connection well formed.
pub proof fn lemma_received_wf(c: ConnectionView, event: Event<PacketView>)
    requires
        c.wf(),
    ensures
        c.taken(event).wf(),
        c.send_observed(event).wf(),
{
}

/// A data frame that is not the next expected one changes nothing: the
/// receive offset stays, no payload is queued, and the answer is the
/// current acknowledgement once more.
pub proof fn lemma_out_of_order(c: ConnectionView, p: PacketView)
    requires
        !p.ack,
        !p.reset,
        !p.fin,
        p.sequence != c.ack,
    ensures
        c.verdict(p) == Verdict::Duplicate,
        c.received(p) == c,
        c.reply(p) == Some(PacketView::ack(c.sequence, c.ack)),
        c.route(p) == RouteUpdate::Keep,
{
}

/// A reset older than what was received is ignored; any other reset ends
/// the connection: the routing entry goes at once, and a transfer or a read
/// that is under way fails with `ConnectionReset`.
pub proof fn lemma_reset_ordering(c: ConnectionView, p: PacketView, content: Seq<u8>, init: u64)
    requires
        p.reset,
    ensures
        p.sequence < c.ack ==> {
            &&& c.verdict(p) == Verdict::Discarded
            &&& c.received(p) == c
            &&& c.reply(p) is None
            &&& c.route(p) == RouteUpdate::Keep
        },
        p.sequence >= c.ack ==> {
            &&& c.verdict(p) == Verdict::Reset
            &&& c.received(p) == c
            &&& c.reply(p) is None
            &&& c.route(p) == RouteUpdate::Remove
            &&& c.send_done(content.len(), init, Event::Arrived(p)) == Some(
                Err::<(), Error>(Error::ConnectionReset),
            )
            &&& c.buffer.len() == 0 ==> c.recv_done(Event::Arrived(p)) == Some(
                Err::<Seq<u8>, Error>(Error::ConnectionReset),
            )
            &&& c.close_route(Event::Arrived(p)) == RouteUpdate::Remove
        },
{
}

/// Once both sides have closed, the routing entry is never removed at
/// once: the step that makes the second side closed starts the linger,
/// unless that step is a reset.
pub proof fn lemma_mutual_fin_lingers(c: ConnectionView, event: Event<PacketView>)
    ensures
        c.sent_fin && c.judged(event) == Verdict::Finished ==> c.taken(event).received_fin
            && c.routed(event) == RouteUpdate::Linger,
        c.closing(event).sent_fin && c.closing(event).received_fin && c.judged(event)
            != Verdict::Reset && c.close_done(event) ==> c.close_route(event)
            == RouteUpdate::Linger,
        c.judged(event) != Verdict::Reset ==> c.routed(event) != RouteUpdate::Remove
            && c.close_route(event) != RouteUpdate::Remove,
{
}

/// How many bytes the payloads of `buffer` hold together.
pub open spec fn total_len(buffer: Seq<Seq<u8>>) -> nat
    decreases buffer.len(),
{
    if buffer.len() == 0 {
        0
    } else {
        total_len(buffer.drop_last()) + buffer.last().len()
    }
}

/// The connection after the frames of `inbound`, taken in one after the
/// other.
pub open spec fn taken_all(c: ConnectionView, inbound: Seq<PacketView>) -> ConnectionView
    decreases inbound.len(),
{
    if inbound.len() == 0 {
        c
    } else {
        taken_all(c, inbound.drop_last()).received(inbound.last())
    }
}

/// Delivery without gaps or duplicates: whatever frames come in, and in
/// whatever order, the receive offset moves by exactly as many bytes as
/// are queued for the application, and what was queued stays queued, in
/// its place. So the receive offset of a connection is its first receive
/// offset plus the length of all the payloads it has queued.
pub proof fn lemma_delivery_without_gaps(c: ConnectionView, inbound: Seq<PacketView>)
    ensures
        taken_all(c, inbound).ack - c.ack == total_len(taken_all(c, inbound).buffer) - total_len(
            c.buffer,
        ),
        c.buffer.len() <= taken_all(c, inbound).buffer.len(),
        taken_all(c, inbound).buffer.subrange(0, c.buffer.len() as int) == c.buffer,
        c.buffer.len() == 0 ==> taken_all(c, inbound).ack == c.ack + total_len(
            taken_all(c, inbound).buffer,
        ),
    decreases inbound.len(),
{
    if inbound.len() == 0 {
        assert(c.buffer.subrange(0, c.buffer.len() as int) =~= c.buffer);
    } else {
        let before = taken_all(c, inbound.drop_last());
        let p = inbound.last();
        lemma_delivery_without_gaps(c, inbound.drop_last());
        let after = before.received(p);
        if before.verdict(p) == Verdict::Delivered {
            assert(after.buffer.drop_last() =~= before.buffer);
            assert(after.buffer.last() == p.content);
        }
        assert(after.buffer.subrange(0, c.buffer.len() as int) =~= before.buffer.subrange(
            0,
            c.buffer.len() as int,
        ));
    }
}

/// Only an acknowledgement of more than was acknowledged moves the send
/// window: any other frame, a stale or repeated acknowledgement among
/// them, leaves the send offset and what is in flight as they were.
pub proof fn lemma_stale_ack(c: ConnectionView, p: PacketView)
    requires
        !(p.ack && p.acked > c.sequence),
    ensures
        c.received(p).sequence == c.sequence,
        c.received(p).in_flight == c.in_flight,
        c.verdict(p) != Verdict::Acked,
{
}

/// The frame of `event` as a mathematical value.
pub open spec fn observed(event: Event<Packet>) -> Event<PacketView> {
    match event {
        Event::Begin => Event::Begin,
        Event::Arrived(p) => Event::Arrived(p@),
        Event::Silence => Event::Silence,
    }
}

/// The payload inside a result of `recv` as a mathematical value.
pub open spec fn delivered(done: Option<Result<Vec<u8>, Error>>) -> Option<Result<Seq<u8>, Error>> {
    match done {
        Some(Ok(data)) => Some(Ok(data@)),
        Some(Err(e)) => Some(Err(e)),
        None => None,
    }
}

impl View for Reaction {
    type V = (Verdict, Option<PacketView>, RouteUpdate);

    open spec fn view(&self) -> (Verdict, Option<PacketView>, RouteUpdate) {
        (self.verdict, frame(self.reply), self.route)
    }
}

impl View for Connection {
    type V = ConnectionView;

    closed spec fn view(&self) -> ConnectionView {
        ConnectionView {
            addr: self.addr@,
            sequence: self.sequence,
            ack: self.ack,
            window: self.window,
            in_flight: self.in_flight,
            sent_fin: self.sent_fin,
            received_fin: self.received_fin,
            buffer: Seq::new(self.buffer@.len(), |i: int| self.buffer@[i]@),
        }
    }
}

impl Connection {
    /// A connection to `addr` whose local stream starts at `sequence` and
    /// whose peer's stream starts at `ack`.
    pub fn new(sequence: u64, ack: u64, addr: String) -> (connection: Connection)
        ensures
            connection@ == ConnectionView::fresh(sequence, ack, addr@),
            connection@.wf(),
    {
        let connection = Connection {
            sequence,
            ack,
            window: WINDOW,
            in_flight: 0,
            addr,
            buffer: VecDeque::new(),
            received_fin: false,
            sent_fin: false,
        };
        assert(connection@.buffer =~= Seq::empty());
        connection
    }

    /// The peer's address.
    pub fn get_peer_addr(&self) -> (addr: String)
        ensures
            addr@ == self@.addr,
    {
        self.addr.clone()
    }

    /// Lowest offset of the local stream that the peer has not acknowledged.
    pub fn get_sequence(&self) -> (sequence: u64)
        ensures
            sequence == self@.sequence,
    {
        self.sequence
    }

    /// Next offset expected from the peer.
    pub fn get_ack(&self) -> (ack: u64)
        ensures
            ack == self@.ack,
    {
        self.ack
    }

    /// The flow-control window.
    pub fn get_window(&self) -> (window: u64)
        ensures
            window == self@.window,
    {
        self.window
    }

    /// Bytes sent and not yet acknowledged.
    pub fn get_in_flight(&self) -> (in_flight: u64)
        ensures
            in_flight == self@.in_flight,
    {
        self.in_flight
    }

    /// Whether the local side has closed its stream.
    pub fn has_sent_fin(&self) -> (sent_fin: bool)
        ensures
            sent_fin == self@.sent_fin,
    {
        self.sent_fin
    }

    /// Whether the peer has closed its stream.
    pub fn has_received_fin(&self) -> (received_fin: bool)
        ensures
            received_fin == self@.received_fin,
    {
        self.received_fin
    }

    /// Carves the next data frame off `content`, a transfer that began at
    /// offset `init_sequence`, and counts its payload as in flight.
    pub fn send_packet(&mut self, content: &Vec<u8>, init_sequence: u64) -> (packet: Packet)
        requires
            old(self)@.wf(),
            old(self)@.can_send(content@.len(), init_sequence),
            init_sequence + content@.len() <= u64::MAX,
        ensures
            packet@ == old(self)@.next_segment(content@, init_sequence),
            final(self)@ == old(self)@.sent(
                old(self)@.segment_size(content@.len(), init_sequence),
            ),
            final(self)@.wf(),
            0 < packet@.size <= MAX_SIZE,
            packet@.consistent(),
    {
        let offset = (self.sequence + self.in_flight - init_sequence) as usize;
        let len: usize = content.len();
        let rem_window = self.window - self.in_flight;
        let left: usize = len - offset;
        let size_sending: usize = if left <= MAX_SIZE && left as u64 <= rem_window {
            left
        } else if MAX_SIZE as u64 <= rem_window {
            MAX_SIZE
        } else {
            rem_window as usize
        };
        let buf = slice_to_vec(slice_subrange(content.as_slice(), offset, offset + size_sending));
        let packet = Packet::new_data(buf, self.sequence + self.in_flight);
        self.in_flight = self.in_flight + size_sending as u64;
        packet
    }

    /// Fills the window: carves data frames off `content`, a transfer that
    /// began at offset `init_sequence`, while content is left and the
    /// window has room.
    pub fn fill_window(&mut self, content: &Vec<u8>, init_sequence: u64) -> (packets: Vec<Packet>)
        requires
            old(self)@.wf(),
            init_sequence + content@.len() <= u64::MAX,
        ensures
            frames(packets@) == old(self)@.window_fill(content@, init_sequence),
            final(self)@ == old(self)@.filled(content@, init_sequence),
            final(self)@.wf(),
    {
        let ghost start = self@;
        let mut packets: Vec<Packet> = Vec::new();
        let len = content.len() as u64;
        assert(frames(packets@) =~= Seq::empty());
        while self.in_flight < self.window && init_sequence <= self.sequence + self.in_flight
            && self.sequence + self.in_flight - init_sequence < len
            invariant
                self@.wf(),
                len == content@.len(),
                init_sequence + content@.len() <= u64::MAX,
                frames(packets@) + self@.window_fill(content@, init_sequence) == start.window_fill(
                    content@,
                    init_sequence,
                ),
                self@.filled(content@, init_sequence) == start.filled(content@, init_sequence),
            decreases self.window - self.in_flight,
        {
            let ghost before = self@;
            let ghost sent = frames(packets@);
            let packet = self.send_packet(content, init_sequence);
            packets.push(packet);
            assert(frames(packets@) =~= sent.push(before.next_segment(content@, init_sequence)));
            assert(frames(packets@) + self@.window_fill(content@, init_sequence) =~= sent
                + before.window_fill(content@, init_sequence));
        }
        assert(frames(packets@) + Seq::<PacketView>::empty() =~= frames(packets@));
        packets
    }

    /// Takes in one inbound frame; `None` stands for no frame at all.
    ///
    /// The send offset and the receive offset never move backward, and a
    /// frame that is not delivered leaves the receive offset and the queue
    /// of payloads as they were.
    pub fn receive(&mut self, inbound: Option<Packet>) -> (reaction: Reaction)
        requires
            old(self)@.wf(),
        ensures
            final(self)@.wf(),
            match inbound {
                Some(p) => {
                    &&& final(self)@ == old(self)@.received(p@)
                    &&& reaction@ == (
                        old(self)@.verdict(p@),
                        old(self)@.reply(p@),
                        old(self)@.route(p@),
                    )
                },
                None => {
                    &&& final(self)@ == old(self)@
                    &&& reaction@ == (Verdict::Silence, None::<PacketView>, RouteUpdate::Keep)
                },
            },
            final(self)@.sequence >= old(self)@.sequence,
            final(self)@.ack >= old(self)@.ack,
            reaction.verdict != Verdict::Delivered ==> final(self)@.ack == old(self)@.ack
                && final(self)@.buffer == old(self)@.buffer,
    {
        let packet = match inbound {
            Some(packet) => packet,
            None => {
                return Reaction {
                    verdict: Verdict::Silence,
                    reply: None,
                    route: RouteUpdate::Keep,
                };
            },
        };
        if packet.is_reset() {
            if packet.get_sequence() >= self.ack {
                return Reaction {
                    verdict: Verdict::Reset,
                    reply: None,
                    route: RouteUpdate::Remove,
                };
            }
            return Reaction { verdict: Verdict::Discarded, reply: None, route: RouteUpdate::Keep };
        }
        if packet.is_ack() && packet.get_acked() > self.sequence {
            let delta = packet.get_acked() - self.sequence;
            self.in_flight = if delta <= self.in_flight {
                self.in_flight - delta
            } else {
                0
            };
            self.sequence = packet.get_acked();
            return Reaction { verdict: Verdict::Acked, reply: None, route: RouteUpdate::Keep };
        }
        let in_order = packet.get_sequence() == self.ack && packet.is_consistent();
        if packet.is_fin() {
            if in_order && self.ack < u64::MAX {
                self.received_fin = true;
                let ack = Packet::new_ack(self.sequence, self.ack + 1);
                let route = if self.sent_fin {
                    RouteUpdate::Linger
                } else {
                    RouteUpdate::Keep
                };
                return Reaction { verdict: Verdict::Finished, reply: Some(ack), route };
            }
        } else if packet.is_ack() && packet.get_size() == 0 {
            return Reaction { verdict: Verdict::Discarded, reply: None, route: RouteUpdate::Keep };
        } else if in_order && packet.get_size() <= u64::MAX - self.ack {
            let ack = Packet::new_ack(self.sequence, self.ack + packet.get_size());
            self.ack = self.ack + packet.get_size();
            let ghost queued = self@.buffer;
            let ghost payload = packet@.content;
            self.buffer.push_back(packet.get_content());
            assert(self@.buffer =~= queued.push(payload));
            return Reaction {
                verdict: Verdict::Delivered,
                reply: Some(ack),
                route: RouteUpdate::Keep,
            };
        }
        let ack = Packet::new_ack(self.sequence, self.ack);
        Reaction { verdict: Verdict::Duplicate, reply: Some(ack), route: RouteUpdate::Keep }
    }

    /// One step of sending `content`, a transfer that began at offset
    /// `init_sequence`: takes in `event`, then fills the window.
    ///
    /// The caller starts with [`Event::Begin`] and `init_sequence` equal to
    /// the send offset of that moment. After each step it sends
    /// `step.transmit`, applies `step.route`, and, unless `step.done` ends
    /// the transfer, waits up to `step.wait` milliseconds for a frame and
    /// steps again with what it got. After silence the whole window is sent
    /// again, from the first byte that is not acknowledged. Only an
    /// acknowledgement of the last byte or a reset ends a transfer: how
    /// many silent steps it tolerates is for the caller to decide.
    pub fn send(&mut self, content: &Vec<u8>, init_sequence: u64, event: Event<Packet>) -> (step:
        Step<Result<(), Error>>)
        requires
            old(self)@.wf(),
            init_sequence + content@.len() <= u64::MAX,
        ensures
            final(self)@.wf(),
            final(self)@ == old(self)@.sending(content@, init_sequence, observed(event)),
            frames(step.transmit@) == old(self)@.send_transmit(
                content@,
                init_sequence,
                observed(event),
            ),
            step.route == old(self)@.routed(observed(event)),
            step.done == old(self)@.send_done(content@.len(), init_sequence, observed(event)),
            step.wait == if step.done is None {
                Some(RTO)
            } else {
                None
            },
            final(self)@.sequence >= old(self)@.sequence,
            final(self)@.ack >= old(self)@.ack,
    {
        let reaction = match event {
            Event::Begin => self.receive(None),
            Event::Arrived(packet) => self.receive(Some(packet)),
            Event::Silence => {
                self.in_flight = 0;
                self.receive(None)
            },
        };
        let mut transmit = into_transmit(reaction.reply);
        if reaction.verdict == Verdict::Reset {
            return Step {
                transmit,
                route: reaction.route,
                wait: None,
                done: Some(Err(Error::ConnectionReset)),
            };
        }
        if self.sequence >= init_sequence && self.sequence - init_sequence >= content.len() as u64 {
            return Step { transmit, route: reaction.route, wait: None, done: Some(Ok(())) };
        }
        let ghost answer = frames(transmit@);
        proof {
            lemma_filled(self@, content@, init_sequence);
        }
        let mut packets = self.fill_window(content, init_sequence);
        let ghost filling = frames(packets@);
        transmit.append(&mut packets);
        assert(frames(transmit@) =~= answer + filling);
        Step { transmit, route: reaction.route, wait: Some(RTO), done: None }
    }

    /// One step of reading a payload: at the start, hands out the oldest
    /// queued payload if there is one; else takes in `event` and goes on
    /// waiting until a frame brings payload or the stream ends.
    ///
    /// The caller starts with [`Event::Begin`]. After each step it sends
    /// `step.transmit`, applies `step.route`, and, unless `step.done` ends
    /// the read, waits without a time limit for a frame and steps again;
    /// [`Event::Silence`] here says that no frame can arrive any more.
    pub fn recv(&mut self, event: Event<Packet>) -> (step: Step<Result<Vec<u8>, Error>>)
        requires
            old(self)@.wf(),
        ensures
            final(self)@.wf(),
            final(self)@ == old(self)@.receiving(observed(event)),
            frames(step.transmit@) == old(self)@.answer(observed(event)),
            step.route == old(self)@.routed(observed(event)),
            delivered(step.done) == old(self)@.recv_done(observed(event)),
            step.wait is None,
            final(self)@.sequence >= old(self)@.sequence,
            final(self)@.ack >= old(self)@.ack,
    {
        let (reaction, waits) = match event {
            Event::Begin => {
                let waits = self.buffer.len() == 0;
                (self.receive(None), waits)
            },
            Event::Arrived(packet) => {
                let reaction = self.receive(Some(packet));
                let waits = reaction.verdict == Verdict::Acked || reaction.verdict
                    == Verdict::Discarded || reaction.verdict == Verdict::Duplicate;
                (reaction, waits)
            },
            Event::Silence => (self.receive(None), false),
        };
        let transmit = into_transmit(reaction.reply);
        if waits {
            return Step { transmit, route: reaction.route, wait: None, done: None };
        }
        let ghost queued = self@.buffer;
        let done = match self.buffer.pop_front() {
            Some(data) => {
                assert(self@.buffer =~= queued.drop_first());
                assert(data@ == queued[0]);
                Ok(data)
            },
            None => {
                assert(self@.buffer =~= queued);
                if reaction.verdict == Verdict::Reset {
                    Err(Error::ConnectionReset)
                } else {
                    Err(Error::EndOfStream)
                }
            },
        };
        Step { transmit, route: reaction.route, wait: None, done: Some(done) }
    }

    /// One step of closing the local side of the stream: sends the closing
    /// frame until silence, an acknowledgement of it, the peer's own
    /// closing frame or a reset ends the step sequence.
    ///
    /// The caller starts with [`Event::Begin`]. After each step it sends
    /// `step.transmit`, applies `step.route`, and, unless `step.done` ends
    /// the close, waits up to `step.wait` milliseconds for a frame and steps
    /// again with what it got.
    pub fn close(&mut self, event: Event<Packet>) -> (step: Step<()>)
        requires
            old(self)@.wf(),
        ensures
            final(self)@.wf(),
            final(self)@ == old(self)@.closing(observed(event)),
            frames(step.transmit@) == old(self)@.close_transmit(observed(event)),
            step.route == old(self)@.close_route(observed(event)),
            step.done is Some <==> old(self)@.close_done(observed(event)),
            step.wait == if step.done is None {
                Some(RTO)
            } else {
                None
            },
            final(self)@.sequence >= old(self)@.sequence,
            final(self)@.ack >= old(self)@.ack,
    {
        let (reaction, done) = match event {
            Event::Begin => (self.receive(None), false),
            Event::Arrived(packet) => {
                let reaction = self.receive(Some(packet));
                let done = reaction.verdict == Verdict::Acked || reaction.verdict
                    == Verdict::Finished || reaction.verdict == Verdict::Reset;
                (reaction, done)
            },
            Event::Silence => (self.receive(None), true),
        };
        let mut transmit = into_transmit(reaction.reply);
        if !done {
            let ghost answer = frames(transmit@);
            transmit.push(Packet::new_fin(self.sequence));
            assert(frames(transmit@) =~= answer.push(PacketView::fin(self.sequence)));
            return Step { transmit, route: RouteUpdate::Keep, wait: Some(RTO), done: None };
        }
        self.sent_fin = true;
        let route = if reaction.verdict == Verdict::Reset {
            RouteUpdate::Remove
        } else if self.received_fin {
            RouteUpdate::Linger
        } else {
            RouteUpdate::Keep
        };
        Step { transmit, route, wait: None, done: Some(()) }
    }

    /// Ends the connection abruptly: the one reset frame to send to the
    /// peer, at the current send offset. Nothing guarantees its delivery.
    pub fn reset(self) -> (packet: Packet)
        ensures
            packet@ == PacketView::reset(self@.sequence),
    {
        Packet::new_reset(self.sequence)
    }
}

/// The frame of a reply, if any, as a list of frames to send.
fn into_transmit(reply: Option<Packet>) -> (transmit: Vec<Packet>)
    ensures
        frames(transmit@) == optional(frame(reply)),
{
    let mut transmit: Vec<Packet> = Vec::new();
    match reply {
        Some(packet) => {
            transmit.push(packet);
        },
        None => {},
    }
    assert(frames(transmit@) =~= optional(frame(reply)));
    transmit
}

} // verus!
