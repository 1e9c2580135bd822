//! What a transfer puts on the wire.
//!
//! The sender cuts the content into segments of [`MAX_SIZE`] bytes, the last
//! one shorter if need be. While no frame is lost, and the peer
//! acknowledges whole segments, exactly these go on the wire, each once and
//! in order. After a timeout the sender goes back to the first byte that
//! was not acknowledged and sends the whole window again.

use crate::protocol::connection::{lemma_filled, ConnectionView, Event, MAX_SIZE, WINDOW};
use crate::protocol::packets::PacketView;
use vstd::prelude::*;

verus! {

/// Into how many segments `len` bytes are cut: `len / MAX_SIZE`, rounded up.
pub open spec fn segment_count(len: nat) -> int {
    (len + MAX_SIZE - 1) / (MAX_SIZE as int)
}

/// Where segment `k` of `len` bytes begins, and segment `k - 1` ends.
pub open spec fn boundary(len: nat, k: int) -> int {
    if k * MAX_SIZE <= len {
        k * MAX_SIZE
    } else {
        len as int
    }
}

/// Segment `k` of a transfer of `content` that began at offset `init`.
pub open spec fn segment(content: Seq<u8>, init: u64, k: int) -> PacketView {
    PacketView::data(
        content.subrange(boundary(content.len(), k), boundary(content.len(), k + 1)),
        (init + boundary(content.len(), k)) as u64,
    )
}

/// Segments `from` up to, and without, `to`.
pub open spec fn segments(content: Seq<u8>, init: u64, from: int, to: int) -> Seq<PacketView> {
    Seq::new((to - from) as nat, |i: int| segment(content, init, from + i))
}

/// Whether `fs` are data frames that follow one another without gap or
/// overlap, the first at offset `from`, each as long as its header says.
pub open spec fn contiguous(fs: Seq<PacketView>, from: int) -> bool
    decreases fs.len(),
{
    fs.len() == 0 || {
        &&& fs[0].sequence == from
        &&& fs[0].consistent()
        &&& contiguous(fs.drop_first(), from + fs[0].size)
    }
}

/// The payloads of `fs`, one after the other.
pub open spec fn payload(fs: Seq<PacketView>) -> Seq<u8>
    decreases fs.len(),
{
    if fs.len() == 0 {
        Seq::empty()
    } else {
        fs[0].content + payload(fs.drop_first())
    }
}

/// The frames that a transfer puts on the wire over the steps for `events`.
pub open spec fn transfer(
    c: ConnectionView,
    content: Seq<u8>,
    init: u64,
    events: Seq<Event<PacketView>>,
) -> Seq<PacketView>
    decreases events.len(),
{
    if events.len() == 0 {
        Seq::empty()
    } else {
        c.send_transmit(content, init, events[0]) + transfer(
            c.sending(content, init, events[0]),
            content,
            init,
            events.drop_first(),
        )
    }
}

/// The connection after the steps of a transfer for `events`.
pub open spec fn transferred(
    c: ConnectionView,
    content: Seq<u8>,
    init: u64,
    events: Seq<Event<PacketView>>,
) -> ConnectionView
    decreases events.len(),
{
    if events.len() == 0 {
        c
    } else {
        transferred(c.sending(content, init, events[0]), content, init, events.drop_first())
    }
}

/// Whether `p` acknowledges whole segments, and nothing else: it is an
/// acknowledgement without payload that names the boundary of a segment.
pub open spec fn acknowledges_segments(p: PacketView, len: nat, init: u64) -> bool {
    &&& p.ack
    &&& !p.reset
    &&& !p.fin
    &&& p.size == 0
    &&& exists|k: int| 0 <= k <= segment_count(len) && p.acked == init + #[trigger] boundary(len, k)
}

/// Whether nothing is lost while connection `c` sends and `events` come
/// in: each event is a frame that acknowledges whole segments, and none
/// that were not sent yet.
pub open spec fn lossless(
    c: ConnectionView,
    content: Seq<u8>,
    init: u64,
    events: Seq<Event<PacketView>>,
) -> bool
    decreases events.len(),
{
    events.len() == 0 || {
        &&& events[0] matches Event::Arrived(p)
        &&& acknowledges_segments(p, content.len(), init)
        &&& p.acked <= c.next()
        &&& lossless(c.sending(content, init, events[0]), content, init, events.drop_first())
    }
}

/// Whether connection `c`, in a transfer of `len` bytes that began at
/// `init`, stands at boundaries: `acked` segments are acknowledged, `sent`
/// are sent, and at most a window of them is in flight.
pub open spec fn aligned(c: ConnectionView, len: nat, init: u64, acked: int, sent: int) -> bool {
    &&& c.wf()
    &&& 0 <= acked <= sent <= segment_count(len)
    &&& sent - acked <= 4
    &&& c.sequence == init + boundary(len, acked)
    &&& c.next() == init + boundary(len, sent)
}

/// Up to which segment the window reaches when `acked` segments are
/// acknowledged.
pub open spec fn reach(len: nat, acked: int) -> int {
    if segment_count(len) <= acked + 4 {
        segment_count(len)
    } else {
        acked + 4
    }
}

/// The segments of a content lie one behind the other, each is full but
/// the last, and together they are the content.
pub proof fn lemma_segments_cover(content: Seq<u8>, init: u64, from: int, to: int)
    requires
        0 <= from <= to <= segment_count(content.len()),
        init + content.len() <= u64::MAX,
    ensures
        segments(content, init, from, to).len() == to - from,
        contiguous(segments(content, init, from, to), init + boundary(content.len(), from)),
        payload(segments(content, init, from, to)) == content.subrange(
            boundary(content.len(), from),
            boundary(content.len(), to),
        ),
        forall|k: int|
            from <= k < to ==> {
                &&& (#[trigger] segment(content, init, k)).sequence == init + k * MAX_SIZE
                &&& 0 < segment(content, init, k).size <= MAX_SIZE
                &&& k + 1 < segment_count(content.len()) ==> segment(content, init, k).size
                    == MAX_SIZE
                &&& k + 1 == segment_count(content.len()) ==> segment(content, init, k).size
                    == content.len() - k * MAX_SIZE
            },
        boundary(content.len(), 0) == 0,
        boundary(content.len(), segment_count(content.len())) == content.len(),
    decreases to - from,
{
    let len = content.len();
    let all = segments(content, init, from, to);
    if from < to {
        lemma_segments_cover(content, init, from + 1, to);
        let rest = segments(content, init, from + 1, to);
        assert(all.drop_first() =~= rest);
        assert(all[0] == segment(content, init, from));
        assert(payload(all) =~= content.subrange(boundary(len, from), boundary(len, to)));
    } else {
        assert(payload(all) =~= content.subrange(boundary(len, from), boundary(len, to)));
    }
}

/// Filling the window from a boundary sends whole segments: those from the
/// first that was not sent up to the reach of the window.
pub proof fn lemma_fill_aligned(
    c: ConnectionView,
    content: Seq<u8>,
    init: u64,
    acked: int,
    sent: int,
)
    requires
        aligned(c, content.len(), init, acked, sent),
        init + content.len() <= u64::MAX,
    ensures
        sent <= reach(content.len(), acked),
        c.window_fill(content, init) == segments(
            content,
            init,
            sent,
            reach(content.len(), acked),
        ),
        aligned(
            c.filled(content, init),
            content.len(),
            init,
            acked,
            reach(content.len(), acked),
        ),
    decreases segment_count(content.len()) - sent,
{
    let len = content.len();
    let to = reach(len, acked);
    if sent < to {
        assert(c.can_send(len, init));
        let size = c.segment_size(len, init);
        assert(size == boundary(len, sent + 1) - boundary(len, sent));
        let after = c.sent(size);
        assert(aligned(after, len, init, acked, sent + 1));
        lemma_fill_aligned(after, content, init, acked, sent + 1);
        assert(c.next_segment(content, init) == segment(content, init, sent));
        assert(c.window_fill(content, init) =~= segments(content, init, sent, to));
    } else {
        assert(!c.can_send(len, init));
        assert(c.window_fill(content, init) =~= segments(content, init, sent, to));
    }
}

/// While nothing is lost, a transfer that stands at the reach of its window
/// sends whole segments, each once and in order, and stands at the reach
/// of its window again. The result is the number of segments acknowledged
/// and the number sent in the end.
pub proof fn lemma_transfer_aligned(
    c: ConnectionView,
    content: Seq<u8>,
    init: u64,
    events: Seq<Event<PacketView>>,
    acked: int,
    sent: int,
) -> (end: (int, int))
    requires
        aligned(c, content.len(), init, acked, sent),
        sent == reach(content.len(), acked),
        init + content.len() <= u64::MAX,
        lossless(c, content, init, events),
    ensures
        sent <= end.1,
        transfer(c, content, init, events) == segments(content, init, sent, end.1),
        aligned(transferred(c, content, init, events), content.len(), init, end.0, end.1),
        end.1 == reach(content.len(), end.0),
    decreases events.len(),
{
    let len = content.len();
    if events.len() == 0 {
        assert(transfer(c, content, init, events) =~= segments(content, init, sent, sent));
        (acked, sent)
    } else {
        let event = events[0];
        let p = event->Arrived_0;
        let k = choose|k: int| 0 <= k <= segment_count(len) && p.acked == init + #[trigger] boundary(
            len,
            k,
        );
        let heard = c.send_observed(event);
        let now = if p.acked > c.sequence {
            k
        } else {
            acked
        };
        assert(aligned(heard, len, init, now, sent));
        lemma_fill_aligned(heard, content, init, now, sent);
        let next = c.sending(content, init, event);
        let step = c.send_transmit(content, init, event);
        let mid = if c.send_done(len, init, event) is None {
            reach(len, now)
        } else {
            sent
        };
        assert(step =~= segments(content, init, sent, mid));
        assert(aligned(next, len, init, now, mid));
        assert(mid == reach(len, now));
        let end = lemma_transfer_aligned(next, content, init, events.drop_first(), now, mid);
        assert(transfer(c, content, init, events) =~= segments(content, init, sent, end.1));
        end
    }
}

/// The segmentation of a transfer: while nothing is lost, the sender puts
/// whole segments on the wire, each once and in order; and once the
/// transfer of `L` bytes is acknowledged, these are the `L / MAX_SIZE`
/// segments, rounded up, that cover the content from its first byte to its
/// last without gap or overlap. Here `events` are what comes in after the
/// first step.
pub proof fn lemma_segmentation(
    c: ConnectionView,
    content: Seq<u8>,
    events: Seq<Event<PacketView>>,
)
    requires
        c.wf(),
        c.in_flight == 0,
        c.sequence + content.len() <= u64::MAX,
        lossless(c.sending(content, c.sequence, Event::Begin), content, c.sequence, events),
    ensures
        ({
            let init = c.sequence;
            let all = transfer(c, content, init, seq![Event::Begin] + events);
            let end = transferred(c, content, init, seq![Event::Begin] + events);
            &&& exists|sent: int|
                0 <= sent <= segment_count(content.len()) && all == #[trigger] segments(
                    content,
                    init,
                    0,
                    sent,
                )
            &&& end.sequence >= init + content.len() ==> {
                &&& all == segments(content, init, 0, segment_count(content.len()))
                &&& all.len() == segment_count(content.len())
                &&& contiguous(all, init as int)
                &&& payload(all) == content
            }
        }),
{
    let init = c.sequence;
    let len = content.len();
    let run = seq![Event::Begin] + events;
    assert(run[0] == Event::<PacketView>::Begin);
    assert(run.drop_first() =~= events);
    assert(aligned(c, len, init, 0, 0));
    lemma_fill_aligned(c, content, init, 0, 0);
    let first = c.send_transmit(content, init, Event::Begin);
    let begun = c.sending(content, init, Event::Begin);
    let mid = if c.send_done(len, init, Event::Begin) is None {
        reach(len, 0)
    } else {
        0
    };
    assert(first =~= segments(content, init, 0, mid));
    assert(aligned(begun, len, init, 0, mid));
    let end = lemma_transfer_aligned(begun, content, init, events, 0, mid);
    let all = transfer(c, content, init, run);
    assert(all =~= segments(content, init, 0, end.1));
    lemma_segments_cover(content, init, 0, end.1);
    let last = transferred(c, content, init, run);
    if last.sequence >= init + len {
        assert(end.1 == segment_count(len));
        assert(content.subrange(0, len as int) =~= content);
    }
}

/// What fills the window lies one frame behind the other, from the first
/// byte that was not sent, and holds the content up to the end of the
/// window or of the content, whichever comes first.
pub proof fn lemma_window_fill_covers(c: ConnectionView, content: Seq<u8>, init: u64)
    requires
        c.wf(),
        init <= c.next() <= init + content.len(),
        init + content.len() <= u64::MAX,
    ensures
        contiguous(c.window_fill(content, init), c.next()),
        payload(c.window_fill(content, init)) == content.subrange(
            c.next() - init,
            c.filled(content, init).next() - init,
        ),
        c.filled(content, init).next() == if init + content.len() <= c.sequence + c.window {
            init + content.len()
        } else {
            c.sequence + c.window
        },
    decreases c.window - c.in_flight,
{
    let fill = c.window_fill(content, init);
    if c.can_send(content.len(), init) {
        let after = c.sent(c.segment_size(content.len(), init));
        lemma_window_fill_covers(after, content, init);
        lemma_filled(after, content, init);
        assert(fill.drop_first() =~= after.window_fill(content, init));
        assert(payload(fill) =~= content.subrange(
            c.next() - init,
            c.filled(content, init).next() - init,
        ));
    } else {
        assert(payload(fill) =~= content.subrange(
            c.next() - init,
            c.filled(content, init).next() - init,
        ));
    }
}

/// Going back: after a timeout the sender sends again every byte from the
/// first that was not acknowledged, up to a full window, in frames that
/// follow one another without gap, and not only the frame that was lost.
pub proof fn lemma_go_back_n(c: ConnectionView, content: Seq<u8>, init: u64)
    requires
        c.wf(),
        init <= c.sequence < init + content.len(),
        init + content.len() <= u64::MAX,
    ensures
        ({
            let again = c.send_transmit(content, init, Event::Silence);
            let end = if content.len() <= c.sequence - init + WINDOW {
                content.len() as int
            } else {
                c.sequence - init + WINDOW
            };
            &&& c.send_done(content.len(), init, Event::Silence) is None
            &&& again.len() > 0
            &&& again[0].sequence == c.sequence
            &&& contiguous(again, c.sequence as int)
            &&& payload(again) == content.subrange(c.sequence - init, end)
            &&& c.sending(content, init, Event::Silence).in_flight == end - (c.sequence - init)
        }),
{
    let lost = c.timed_out();
    lemma_window_fill_covers(lost, content, init);
    lemma_filled(lost, content, init);
    assert(lost.can_send(content.len(), init));
    assert(c.send_transmit(content, init, Event::Silence) =~= lost.window_fill(content, init));
}

/// Going back with a full window: when at least a window of content lies
/// behind the first byte that was not acknowledged, silence makes the
/// sender send four full frames again, the first at that byte and each
/// where the one before it ends; the send offset stays.
pub proof fn lemma_go_back_n_full_window(c: ConnectionView, content: Seq<u8>, init: u64)
    requires
        c.wf(),
        init <= c.sequence,
        c.sequence - init + WINDOW <= content.len(),
        init + content.len() <= u64::MAX,
    ensures
        ({
            let from = c.sequence - init;
            let size = MAX_SIZE as int;
            &&& c.send_transmit(content, init, Event::Silence) == seq![
                PacketView::data(content.subrange(from, from + size), c.sequence),
                PacketView::data(
                    content.subrange(from + size, from + 2 * size),
                    (c.sequence + size) as u64,
                ),
                PacketView::data(
                    content.subrange(from + 2 * size, from + 3 * size),
                    (c.sequence + 2 * size) as u64,
                ),
                PacketView::data(
                    content.subrange(from + 3 * size, from + 4 * size),
                    (c.sequence + 3 * size) as u64,
                ),
            ]
            &&& c.sending(content, init, Event::Silence).sequence == c.sequence
            &&& c.sending(content, init, Event::Silence).in_flight == WINDOW
        }),
{
    let size = MAX_SIZE as int;
    let c0 = c.timed_out();
    let c1 = c0.sent(size);
    let c2 = c1.sent(size);
    let c3 = c2.sent(size);
    let c4 = c3.sent(size);
    assert(c0.can_send(content.len(), init) && c0.segment_size(content.len(), init) == size);
    assert(c1.can_send(content.len(), init) && c1.segment_size(content.len(), init) == size);
    assert(c2.can_send(content.len(), init) && c2.segment_size(content.len(), init) == size);
    assert(c3.can_send(content.len(), init) && c3.segment_size(content.len(), init) == size);
    assert(!c4.can_send(content.len(), init));
    assert(c4.window_fill(content, init) =~= Seq::empty());
    assert(c3.window_fill(content, init) =~= seq![c3.next_segment(content, init)]);
    assert(c2.window_fill(content, init) =~= seq![
        c2.next_segment(content, init),
        c3.next_segment(content, init),
    ]);
    assert(c1.window_fill(content, init) =~= seq![
        c1.next_segment(content, init),
        c2.next_segment(content, init),
        c3.next_segment(content, init),
    ]);
    assert(c0.window_fill(content, init) =~= seq![
        c0.next_segment(content, init),
        c1.next_segment(content, init),
        c2.next_segment(content, init),
        c3.next_segment(content, init),
    ]);
    assert(c4.filled(content, init) == c4);
    assert(c3.filled(content, init) == c4);
    assert(c2.filled(content, init) == c4);
    assert(c1.filled(content, init) == c4);
    assert(c0.filled(content, init) == c4);
}

} // verus!
