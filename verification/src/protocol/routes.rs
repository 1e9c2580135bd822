//! The routing table of an endpoint: for each peer with a live connection,
//! the queue of frames that arrived for it and were not yet taken in.
//!
//! A peer has at most one entry. An entry may be lingering: then it is
//! removed once [`LINGER`] milliseconds have passed since the linger began,
//! unless it is removed or replaced before.

use crate::protocol::connection::{Event, LINGER};
use crate::protocol::packets::{Packet, PacketView};
use std::collections::VecDeque;
use vstd::prelude::*;

verus! {

/// The entry of one peer.
#[derive(Debug)]
struct Inbox {
    addr: String,
    frames: VecDeque<Packet>,
    lingering: Option<u64>,
}

/// The entry of one peer as a mathematical value.
pub ghost struct InboxView {
    /// The frames that wait for the connection, oldest first.
    pub frames: Seq<PacketView>,
    /// When the linger began, in milliseconds, if the entry is lingering.
    pub lingering: Option<u64>,
}

impl InboxView {
    /// The entry of a connection that was just made.
    pub open spec fn fresh() -> InboxView {
        InboxView { frames: Seq::empty(), lingering: None }
    }

    /// Whether the entry is due for removal at time `now`.
    pub open spec fn expired(self, now: u64) -> bool {
        match self.lingering {
            Some(since) => now - since >= LINGER,
            None => false,
        }
    }
}

impl View for Inbox {
    type V = InboxView;

    closed spec fn view(&self) -> InboxView {
        InboxView {
            frames: Seq::new(self.frames@.len(), |i: int| self.frames@[i]@),
            lingering: self.lingering,
        }
    }
}

/// The routing table.
#[derive(Debug)]
pub struct Routes {
    entries: Vec<Inbox>,
}

/// Whether entry `i` of `entries` belongs to peer `addr`.
spec fn at(entries: Seq<Inbox>, i: int, addr: Seq<char>) -> bool {
    0 <= i < entries.len() && entries[i].addr@ == addr
}

/// Whether no two of `entries` belong to the same peer.
spec fn distinct(entries: Seq<Inbox>) -> bool {
    forall|i: int, j: int| #![trigger entries[i], entries[j]]
        0 <= i < j < entries.len() ==> entries[i].addr@ != entries[j].addr@
}

/// The table that `entries` stand for.
spec fn table(entries: Seq<Inbox>) -> Map<Seq<char>, InboxView> {
    Map::new(
        |addr: Seq<char>| exists|i: int| at(entries, i, addr),
        |addr: Seq<char>| entries[choose|i: int| at(entries, i, addr)]@,
    )
}

/// An entry of a table without repetitions is what the table holds for its
/// peer.
proof fn lemma_entry(entries: Seq<Inbox>, i: int)
    requires
        distinct(entries),
        0 <= i < entries.len(),
    ensures
        table(entries).contains_key(entries[i].addr@),
        table(entries)[entries[i].addr@] == entries[i]@,
{
    let addr = entries[i].addr@;
    assert(at(entries, i, addr));
    let k = choose|k: int| at(entries, k, addr);
    assert(at(entries, k, addr));
    if k < i {
        assert(entries[k].addr@ != entries[i].addr@);
    } else if i < k {
        assert(entries[i].addr@ != entries[k].addr@);
    }
}

impl View for Routes {
    type V = Map<Seq<char>, InboxView>;

    closed spec fn view(&self) -> Map<Seq<char>, InboxView> {
        table(self.entries@)
    }
}

impl Routes {
    /// The invariant of the table: a peer has at most one entry.
    pub closed spec fn wf(&self) -> bool {
        distinct(self.entries@)
    }

    /// The table without entries.
    pub fn new() -> (routes: Routes)
        ensures
            routes.wf(),
            routes@ == Map::<Seq<char>, InboxView>::empty(),
    {
        let routes = Routes { entries: Vec::new() };
        assert(routes@ =~= Map::<Seq<char>, InboxView>::empty()) by {
            assert forall|addr: Seq<char>| !routes@.contains_key(addr) by {
                if routes@.contains_key(addr) {
                    let i = choose|i: int| at(routes.entries@, i, addr);
                    assert(at(routes.entries@, i, addr));
                }
            }
        }
        routes
    }

    /// Where the entry of `addr` stands, if it has one.
    fn find(&self, addr: &String) -> (found: Option<usize>)
        requires
            self.wf(),
        ensures
            match found {
                Some(i) => at(self.entries@, i as int, addr@) && self@.contains_key(addr@)
                    && self@[addr@] == self.entries@[i as int]@,
                None => !self@.contains_key(addr@) && forall|i: int|
                    0 <= i < self.entries@.len() ==> #[trigger] self.entries@[i].addr@ != addr@,
            },
    {
        let mut i: usize = 0;
        while i < self.entries.len()
            invariant
                self.wf(),
                i <= self.entries.len(),
                forall|k: int| 0 <= k < i ==> #[trigger] self.entries@[k].addr@ != addr@,
            decreases self.entries.len() - i,
        {
            if self.entries[i].addr == *addr {
                proof {
                    lemma_entry(self.entries@, i as int);
                }
                return Some(i);
            }
            i = i + 1;
        }
        proof {
            if self@.contains_key(addr@) {
                let k = choose|k: int| at(self.entries@, k, addr@);
                assert(at(self.entries@, k, addr@));
                assert(self.entries@[k].addr@ != addr@);
            }
        }
        None
    }

    /// Whether `addr` has an entry.
    pub fn contains(&self, addr: &String) -> (found: bool)
        requires
            self.wf(),
        ensures
            found == self@.contains_key(addr@),
    {
        self.find(addr).is_some()
    }

    /// How many peers have an entry.
    pub fn len(&self) -> (len: usize)
        requires
            self.wf(),
        ensures
            len == self@.dom().len(),
            self@.dom().finite(),
    {
        proof {
            lemma_domain(self.entries@);
        }
        self.entries.len()
    }

    /// Gives `addr` a fresh entry, in place of the one it had, if any.
    pub fn insert(&mut self, addr: String)
        requires
            old(self).wf(),
        ensures
            final(self).wf(),
            final(self)@ == old(self)@.insert(addr@, InboxView::fresh()),
    {
        let ghost before = self.entries@;
        let ghost peer = addr@;
        let found = self.find(&addr);
        let inbox = Inbox { addr, frames: VecDeque::new(), lingering: None };
        assert(inbox@ == InboxView::fresh()) by {
            assert(inbox@.frames =~= Seq::empty());
        }
        match found {
            Some(i) => {
                self.entries.set(i, inbox);
                proof {
                    let after = self.entries@;
                    assert forall|k: int, addr: Seq<char>| at(after, k, addr) == at(
                        before,
                        k,
                        addr,
                    ) by {}
                    assert(distinct(after)) by {
                        assert forall|a: int, b: int| 0 <= a < b < after.len() implies after[a].addr@
                            != after[b].addr@ by {
                            assert(before[a].addr@ != before[b].addr@);
                        }
                    }
                    lemma_changed(before, after, i as int);
                }
            },
            None => {
                self.entries.push(inbox);
                proof {
                    let after = self.entries@;
                    let last = after.len() - 1;
                    assert(distinct(after)) by {
                        assert forall|a: int, b: int| 0 <= a < b < after.len() implies after[a].addr@
                            != after[b].addr@ by {
                            if b < last {
                                assert(before[a].addr@ != before[b].addr@);
                            } else {
                                assert(before[a].addr@ != peer);
                            }
                        }
                    }
                    assert(table(after) =~= table(before).insert(peer, InboxView::fresh())) by {
                        assert forall|addr: Seq<char>|
                            table(after).contains_key(addr) == table(before).insert(
                                peer,
                                InboxView::fresh(),
                            ).contains_key(addr) by {
                            if table(after).contains_key(addr) {
                                let k = choose|k: int| at(after, k, addr);
                                assert(at(after, k, addr));
                                if k < last {
                                    assert(at(before, k, addr));
                                }
                            }
                            if addr == peer {
                                assert(at(after, last, addr));
                            } else if table(before).contains_key(addr) {
                                let k = choose|k: int| at(before, k, addr);
                                assert(at(before, k, addr));
                                assert(at(after, k, addr));
                            }
                        }
                        assert forall|addr: Seq<char>| table(after).contains_key(addr) implies (
                        #[trigger] table(after)[addr]) == table(before).insert(
                            peer,
                            InboxView::fresh(),
                        )[addr] by {
                            let k = choose|k: int| at(after, k, addr);
                            assert(at(after, k, addr));
                            lemma_entry(after, k);
                            if k < last {
                                lemma_entry(before, k);
                            }
                        }
                    }
                }
            },
        }
    }

    /// Removes the entry of `addr`, if it has one, with the frames that
    /// still wait in it.
    pub fn remove(&mut self, addr: &String)
        requires
            old(self).wf(),
        ensures
            final(self).wf(),
            final(self)@ == old(self)@.remove(addr@),
    {
        let ghost before = self.entries@;
        match self.find(addr) {
            Some(i) => {
                self.entries.remove(i);
                proof {
                    lemma_removed(before, self.entries@, i as int);
                }
            },
            None => {
                assert(self@ =~= old(self)@.remove(addr@));
            },
        }
    }

    /// Queues `packet` for the connection of `addr`; without an entry for
    /// `addr` the frame is dropped.
    pub fn push(&mut self, addr: &String, packet: Packet)
        requires
            old(self).wf(),
        ensures
            final(self).wf(),
            final(self)@ == if old(self)@.contains_key(addr@) {
                old(self)@.insert(
                    addr@,
                    InboxView {
                        frames: old(self)@[addr@].frames.push(packet@),
                        ..old(self)@[addr@]
                    },
                )
            } else {
                old(self)@
            },
    {
        let ghost before = self.entries@;
        match self.find(addr) {
            Some(i) => {
                let ghost queued = self.entries@[i as int]@.frames;
                self.entries[i].frames.push_back(packet);
                proof {
                    let after = self.entries@;
                    assert(after[i as int]@.frames =~= queued.push(packet@));
                    lemma_same_peers(before, after);
                    lemma_changed(before, after, i as int);
                }
            },
            None => {},
        }
    }

    /// The next event for the connection of `addr`, if one is known: the
    /// oldest frame that waits for it; silence, if `addr` has no entry,
    /// since then nothing can arrive; and `None` while the entry is empty.
    pub fn pop(&mut self, addr: &String) -> (event: Option<Event<Packet>>)
        requires
            old(self).wf(),
        ensures
            final(self).wf(),
            !old(self)@.contains_key(addr@) ==> (event matches Some(Event::Silence)) && final(self)@
                == old(self)@,
            old(self)@.contains_key(addr@) && old(self)@[addr@].frames.len() == 0 ==> (event
                is None) && final(self)@ == old(self)@,
            old(self)@.contains_key(addr@) && old(self)@[addr@].frames.len() > 0 ==> {
                &&& event matches Some(Event::Arrived(p))
                &&& p@ == old(self)@[addr@].frames[0]
                &&& final(self)@ == old(self)@.insert(
                    addr@,
                    InboxView {
                        frames: old(self)@[addr@].frames.drop_first(),
                        ..old(self)@[addr@]
                    },
                )
            },
    {
        let ghost before = self.entries@;
        match self.find(addr) {
            Some(i) => {
                let ghost queued = self.entries@[i as int]@.frames;
                let popped = self.entries[i].frames.pop_front();
                proof {
                    let after = self.entries@;
                    lemma_same_peers(before, after);
                }
                match popped {
                    Some(packet) => {
                        proof {
                            let after = self.entries@;
                            assert(after[i as int]@.frames =~= queued.drop_first());
                            assert(packet@ == queued[0]);
                            lemma_changed(before, after, i as int);
                        }
                        Some(Event::Arrived(packet))
                    },
                    None => {
                        proof {
                            let after = self.entries@;
                            assert(after[i as int]@.frames =~= queued);
                            lemma_changed(before, after, i as int);
                            assert(self@ =~= old(self)@);
                        }
                        None
                    },
                }
            },
            None => Some(Event::Silence),
        }
    }

    /// Starts the linger of the entry of `addr` at time `now`, in
    /// milliseconds; a linger that already runs starts anew. Without an
    /// entry for `addr` nothing happens.
    pub fn linger(&mut self, addr: &String, now: u64)
        requires
            old(self).wf(),
        ensures
            final(self).wf(),
            final(self)@ == if old(self)@.contains_key(addr@) {
                old(self)@.insert(
                    addr@,
                    InboxView { lingering: Some(now), ..old(self)@[addr@] },
                )
            } else {
                old(self)@
            },
    {
        let ghost before = self.entries@;
        match self.find(addr) {
            Some(i) => {
                let ghost queued = self.entries@[i as int]@.frames;
                self.entries[i].lingering = Some(now);
                proof {
                    let after = self.entries@;
                    assert(after[i as int]@.frames =~= queued);
                    lemma_same_peers(before, after);
                    lemma_changed(before, after, i as int);
                }
            },
            None => {},
        }
    }

    /// Removes every entry whose linger is over at time `now`, in
    /// milliseconds, and says how many there were. An entry is kept while
    /// it does not linger, and while fewer than [`LINGER`] milliseconds
    /// have passed since its linger began.
    pub fn expire(&mut self, now: u64) -> (removed: usize)
        requires
            old(self).wf(),
        ensures
            final(self).wf(),
            final(self)@ == old(self)@.remove_keys(
                Set::new(
                    |addr: Seq<char>|
                        old(self)@.contains_key(addr) && old(self)@[addr].expired(now),
                ),
            ),
            removed == old(self)@.dom().len() - final(self)@.dom().len(),
    {
        let ghost start = self@;
        let ghost due = Set::new(
            |addr: Seq<char>| start.contains_key(addr) && start[addr].expired(now),
        );
        let before_len = self.entries.len();
        proof {
            lemma_domain(self.entries@);
        }
        let mut i: usize = 0;
        while i < self.entries.len()
            invariant
                self.wf(),
                i <= self.entries.len(),
                self.entries.len() <= before_len,
                forall|k: int| 0 <= k < i ==> !(#[trigger] self.entries@[k])@.expired(now),
                forall|addr: Seq<char>| #[trigger]
                    self@.contains_key(addr) ==> start.contains_key(addr) && self@[addr]
                        == start[addr],
                forall|addr: Seq<char>|
                    start.contains_key(addr) && !start[addr].expired(now)
                        ==> #[trigger] self@.contains_key(addr),
            decreases self.entries.len() - i,
        {
            let expired = match self.entries[i].lingering {
                Some(since) => now >= since && now - since >= LINGER,
                None => false,
            };
            assert(expired == self.entries@[i as int]@.expired(now));
            if expired {
                let ghost before = self.entries@;
                let ghost held = self@;
                let ghost peer = before[i as int].addr@;
                proof {
                    lemma_entry(before, i as int);
                }
                self.entries.remove(i);
                proof {
                    lemma_removed(before, self.entries@, i as int);
                    assert(self@ == held.remove(peer));
                    assert(held.contains_key(peer) && held[peer].expired(now));
                    assert forall|k: int| 0 <= k < i implies !(#[trigger] self.entries@[k])@.expired(
                        now,
                    ) by {
                        assert(self.entries@[k] == before[k]);
                    }
                    assert forall|addr: Seq<char>| #[trigger]
                        self@.contains_key(addr) implies start.contains_key(addr) && self@[addr]
                        == start[addr] by {
                        assert(held.contains_key(addr));
                    }
                    assert forall|addr: Seq<char>|
                        start.contains_key(addr) && !start[addr].expired(
                            now,
                        ) implies #[trigger] self@.contains_key(addr) by {
                        assert(held.contains_key(addr));
                    }
                }
            } else {
                i = i + 1;
            }
        }
        proof {
            assert forall|addr: Seq<char>| self@.contains_key(addr) implies !start[addr].expired(
                now,
            ) by {
                let k = choose|k: int| at(self.entries@, k, addr);
                assert(at(self.entries@, k, addr));
                lemma_entry(self.entries@, k);
            }
            assert(self@ =~= start.remove_keys(due));
            lemma_domain(self.entries@);
        }
        before_len - self.entries.len()
    }
}

/// A table without repetitions has as many peers as entries.
proof fn lemma_domain(entries: Seq<Inbox>)
    requires
        distinct(entries),
    ensures
        table(entries).dom().finite(),
        table(entries).dom().len() == entries.len(),
    decreases entries.len(),
{
    if entries.len() == 0 {
        assert(table(entries).dom() =~= Set::empty()) by {
            assert forall|addr: Seq<char>| !table(entries).dom().contains(addr) by {
                if table(entries).contains_key(addr) {
                    let i = choose|i: int| at(entries, i, addr);
                    assert(at(entries, i, addr));
                }
            }
        }
    } else {
        let last = entries.len() - 1;
        let front = entries.drop_last();
        let peer = entries[last].addr@;
        assert(distinct(front)) by {
            assert forall|a: int, b: int| 0 <= a < b < front.len() implies front[a].addr@
                != front[b].addr@ by {
                assert(entries[a].addr@ != entries[b].addr@);
            }
        }
        lemma_domain(front);
        assert(!table(front).dom().contains(peer)) by {
            if table(front).contains_key(peer) {
                let k = choose|k: int| at(front, k, peer);
                assert(at(front, k, peer));
                assert(entries[k].addr@ != entries[last].addr@);
            }
        }
        assert(table(entries).dom() =~= table(front).dom().insert(peer)) by {
            assert forall|addr: Seq<char>|
                table(entries).dom().contains(addr) == table(front).dom().insert(peer).contains(
                    addr,
                ) by {
                if table(entries).contains_key(addr) {
                    let k = choose|k: int| at(entries, k, addr);
                    assert(at(entries, k, addr));
                    if k < last {
                        assert(at(front, k, addr));
                    }
                }
                if addr == peer {
                    assert(at(entries, last, addr));
                } else if table(front).contains_key(addr) {
                    let k = choose|k: int| at(front, k, addr);
                    assert(at(front, k, addr));
                    assert(at(entries, k, addr));
                }
            }
        }
    }
}

/// Changing what entries hold, and not whose they are, leaves a table
/// without repetitions.
proof fn lemma_same_peers(before: Seq<Inbox>, after: Seq<Inbox>)
    requires
        distinct(before),
        after.len() == before.len(),
        forall|k: int| 0 <= k < before.len() ==> (#[trigger] after[k]).addr@ == before[k].addr@,
    ensures
        distinct(after),
{
    assert forall|a: int, b: int| 0 <= a < b < after.len() implies after[a].addr@
        != after[b].addr@ by {
        assert(before[a].addr@ != before[b].addr@);
    }
}

/// Changing what entry `i` holds changes the table at its peer, and
/// nowhere else.
proof fn lemma_changed(before: Seq<Inbox>, after: Seq<Inbox>, i: int)
    requires
        distinct(before),
        distinct(after),
        0 <= i < before.len(),
        after.len() == before.len(),
        forall|k: int| 0 <= k < before.len() ==> (#[trigger] after[k]).addr@ == before[k].addr@,
        forall|k: int| 0 <= k < before.len() && k != i ==> (#[trigger] after[k])@ == before[k]@,
    ensures
        table(after) == table(before).insert(before[i].addr@, after[i]@),
{
    let peer = before[i].addr@;
    assert forall|k: int, addr: Seq<char>| at(after, k, addr) == at(before, k, addr) by {
        if 0 <= k < before.len() {
            assert(after[k].addr@ == before[k].addr@);
        }
    }
    assert(table(after) =~= table(before).insert(peer, after[i]@)) by {
        assert forall|addr: Seq<char>|
            table(after).contains_key(addr) == table(before).insert(peer, after[i]@).contains_key(
                addr,
            ) by {
            if table(after).contains_key(addr) {
                let k = choose|k: int| at(after, k, addr);
                assert(at(before, k, addr));
            }
            if table(before).contains_key(addr) {
                let k = choose|k: int| at(before, k, addr);
                assert(at(after, k, addr));
            }
            if addr == peer {
                assert(at(after, i, addr));
            }
        }
        assert forall|addr: Seq<char>| table(after).contains_key(addr) implies (
        #[trigger] table(after)[addr]) == table(before).insert(peer, after[i]@)[addr] by {
            let k = choose|k: int| at(after, k, addr);
            assert(at(after, k, addr));
            lemma_entry(after, k);
            lemma_entry(before, k);
        }
    }
}

/// Taking entry `i` out takes its peer out of the table, and no other.
proof fn lemma_removed(before: Seq<Inbox>, after: Seq<Inbox>, i: int)
    requires
        distinct(before),
        0 <= i < before.len(),
        after == before.remove(i),
    ensures
        distinct(after),
        table(after) == table(before).remove(before[i].addr@),
{
    let peer = before[i].addr@;
    assert forall|k: int| 0 <= k < after.len() implies #[trigger] after[k] == before[if k < i {
        k
    } else {
        k + 1
    }] by {}
    assert(distinct(after)) by {
        assert forall|a: int, b: int| 0 <= a < b < after.len() implies after[a].addr@
            != after[b].addr@ by {
            let a0 = if a < i { a } else { a + 1 };
            let b0 = if b < i { b } else { b + 1 };
            assert(after[a] == before[a0]);
            assert(after[b] == before[b0]);
            assert(before[a0].addr@ != before[b0].addr@);
        }
    }
    assert(table(after) =~= table(before).remove(peer)) by {
        assert forall|addr: Seq<char>|
            table(after).contains_key(addr) == table(before).remove(peer).contains_key(addr) by {
            if table(after).contains_key(addr) {
                let k = choose|k: int| at(after, k, addr);
                assert(at(after, k, addr));
                let k0 = if k < i { k } else { k + 1 };
                assert(after[k] == before[k0]);
                assert(at(before, k0, addr));
                if addr == peer {
                    if k0 < i {
                        assert(before[k0].addr@ != before[i].addr@);
                    } else {
                        assert(before[i].addr@ != before[k0].addr@);
                    }
                }
            }
            if table(before).contains_key(addr) && addr != peer {
                let k = choose|k: int| at(before, k, addr);
                assert(at(before, k, addr));
                let k1 = if k < i { k } else { k - 1 };
                assert(after[k1] == before[k]);
                assert(at(after, k1, addr));
            }
        }
        assert forall|addr: Seq<char>| table(after).contains_key(addr) implies (
        #[trigger] table(after)[addr]) == table(before).remove(peer)[addr] by {
            let k = choose|k: int| at(after, k, addr);
            assert(at(after, k, addr));
            let k0 = if k < i { k } else { k + 1 };
            assert(after[k] == before[k0]);
            lemma_entry(after, k);
            lemma_entry(before, k0);
        }
    }
}

} // verus!
