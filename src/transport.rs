//! Bookkeeping of outgoing requests: correlation tokens that are still pending, and
//! the requests waiting to be put on the wire.

use vstd::prelude::*;
use vstd::set_lib::{lemma_int_range, lemma_len_subset, lemma_map_size, set_int_range};

use crate::common::Address;
use crate::messages::Request;

verus! {

/// Number of distinct correlation tokens.
pub const TOKEN_SPACE: usize = 65536;

/// A request to be sent, with the token that its response will carry.
#[derive(Clone, Copy, Debug, PartialEq, Eq)]
pub struct Outgoing {
    pub tid: u16,
    pub address: Address,
    pub request: Request,
}

/// What a transport holds: the pending tokens, oldest first, and the requests not yet
/// handed to the network.
pub struct TransportView {
    pub inflight: Seq<u16>,
    pub outbox: Seq<Outgoing>,
}

/// Allocates correlation tokens, tracks which are pending, and queues requests for the
/// network layer, which drains them with `take_outbox` and reports each token that is
/// answered or timed out with `complete`.
#[derive(Debug)]
pub struct Transport {
    next_tid: u16,
    inflight: Vec<u16>,
    outbox: Vec<Outgoing>,
}

impl View for Transport {
    type V = TransportView;

    closed spec fn view(&self) -> TransportView {
        TransportView { inflight: self.inflight@, outbox: self.outbox@ }
    }
}

/// Keeps every token but `tid`.
pub open spec fn other_than(tid: u16) -> spec_fn(u16) -> bool {
    |t: u16| t != tid
}

spec fn token_at(start: u16, k: int) -> u16 {
    ((start + k) % 65536) as u16
}

impl Transport {
    pub open spec fn wf(&self) -> bool {
        self@.inflight.no_duplicates()
    }

    pub fn new() -> (r: Transport)
        ensures
            r.wf(),
            r@.inflight == Seq::<u16>::empty(),
            r@.outbox == Seq::<Outgoing>::empty(),
    {
        Transport { next_tid: 0, inflight: Vec::new(), outbox: Vec::new() }
    }

    /// Number of pending tokens.
    pub fn pending_count(&self) -> (r: usize)
        ensures
            r == self@.inflight.len(),
    {
        self.inflight.len()
    }

    /// Whether `tid` is still pending.
    pub fn is_pending(&self, tid: u16) -> (r: bool)
        ensures
            r == self@.inflight.contains(tid),
    {
        let mut i: usize = 0;
        while i < self.inflight.len()
            invariant
                i <= self.inflight@.len(),
                forall|k: int| 0 <= k < i ==> self.inflight@[k] != tid,
            decreases self.inflight@.len() - i,
        {
            if self.inflight[i] == tid {
                return true;
            }
            i += 1;
        }
        false
    }

    proof fn lemma_room_left(&self, start: u16, count: int)
        requires
            self.wf(),
            0 <= count < 65536,
            forall|k: int| 0 <= k <= count ==> self@.inflight.contains(#[trigger] token_at(start, k)),
        ensures
            count < self@.inflight.len(),
    {
        let range = set_int_range(0, count + 1);
        let f = |k: int| token_at(start, k);
        let found = range.map(f);
        lemma_int_range(0, count + 1);
        assert forall|a: int, b: int|
            range.contains(a) && range.contains(b) && #[trigger] f(a) == #[trigger] f(b) implies a == b by {
            assert((start + a) % 65536 == (start + b) % 65536 ==> a == b) by (nonlinear_arith)
                requires
                    0 <= a < 65536,
                    0 <= b < 65536,
                    0 <= start < 65536,
            ;
        }
        lemma_map_size(range, found, f);
        let all = self@.inflight.to_set();
        assert forall|t: u16| found.contains(t) implies all.contains(t) by {
            let k = choose|k: int| range.contains(k) && f(k) == t;
            assert(self@.inflight.contains(token_at(start, k)));
        }
        lemma_len_subset(found, all);
        self@.inflight.lemma_cardinality_of_set();
    }

    /// Sends `request` to `address`: allocates a token that is not pending, marks it
    /// pending and queues the request under it.
    pub fn request(&mut self, address: Address, request: Request) -> (r: u16)
        requires
            old(self).wf(),
            old(self)@.inflight.len() < TOKEN_SPACE,
        ensures
            final(self).wf(),
            !old(self)@.inflight.contains(r),
            final(self)@.inflight == old(self)@.inflight.push(r),
            final(self)@.outbox == old(self)@.outbox.push(Outgoing { tid: r, address, request }),
    {
        let start = self.next_tid;
        let mut tid = start;
        let mut count: u32 = 0;
        while self.is_pending(tid)
            invariant
                self == old(self),
                self.wf(),
                self@.inflight.len() < 65536,
                0 <= count <= self@.inflight.len(),
                tid == token_at(start, count as int),
                forall|k: int| 0 <= k < count ==> self@.inflight.contains(#[trigger] token_at(start, k)),
            decreases 65536 - count,
        {
            proof {
                self.lemma_room_left(start, count as int);
            }
            assert(token_at(start, count + 1) == ((tid + 1) % 65536) as u16) by (nonlinear_arith)
                requires
                    tid == ((start + count) % 65536) as u16,
                    0 <= start < 65536,
                    0 <= count < 65536,
            ;
            tid = tid.wrapping_add(1);
            count += 1;
        }
        self.next_tid = tid.wrapping_add(1);
        self.inflight.push(tid);
        self.outbox.push(Outgoing { tid, address, request });
        proof {
            assert(self@.inflight == old(self)@.inflight.push(tid));
        }
        tid
    }

    /// Marks `tid` as no longer pending, whether it was answered or timed out; returns
    /// whether it was pending.
    pub fn complete(&mut self, tid: u16) -> (r: bool)
        requires
            old(self).wf(),
        ensures
            final(self).wf(),
            r == old(self)@.inflight.contains(tid),
            final(self)@.inflight == old(self)@.inflight.filter(other_than(tid)),
            final(self)@.outbox == old(self)@.outbox,
    {
        let ghost before = self.inflight@;
        let mut kept: Vec<u16> = Vec::new();
        let mut found = false;
        let mut i: usize = 0;
        while i < self.inflight.len()
            invariant
                self.inflight@ == before,
                i <= before.len(),
                kept@ == before.subrange(0, i as int).filter(other_than(tid)),
                found == before.subrange(0, i as int).contains(tid),
            decreases before.len() - i,
        {
            let t = self.inflight[i];
            proof {
                let prefix = before.subrange(0, i as int);
                assert(before.subrange(0, i + 1) =~= prefix.push(t));
                prefix.lemma_filter_push(t, other_than(tid));
                assert(other_than(tid)(t) == (t != tid));
                assert(prefix.push(t).contains(tid) == (prefix.contains(tid) || t == tid)) by {
                    if prefix.push(t).contains(tid) && t != tid {
                        let k = choose|k: int| 0 <= k < prefix.len() + 1 && prefix.push(t)[k] == tid;
                        assert(prefix[k] == tid);
                    }
                    if prefix.contains(tid) {
                        let k = choose|k: int| 0 <= k < prefix.len() && prefix[k] == tid;
                        assert(prefix.push(t)[k] == tid);
                    }
                    if t == tid {
                        assert(prefix.push(t)[prefix.len() as int] == tid);
                    }
                }
            }
            if t == tid {
                found = true;
            } else {
                kept.push(t);
            }
            i += 1;
        }
        proof {
            assert(before.subrange(0, before.len() as int) == before);
            broadcast use vstd::seq_lib::group_filter_ensures;
            assert forall|a: int, b: int| 0 <= a < b < kept@.len() implies kept@[a] != kept@[b] by {
                lemma_filtered_distinct(before, other_than(tid), a, b);
            }
        }
        self.inflight = kept;
        found
    }

    /// Hands out the queued requests, oldest first, and empties the queue.
    pub fn take_outbox(&mut self) -> (r: Vec<Outgoing>)
        requires
            old(self).wf(),
        ensures
            final(self).wf(),
            r@ == old(self)@.outbox,
            final(self)@.inflight == old(self)@.inflight,
            final(self)@.outbox == Seq::<Outgoing>::empty(),
    {
        let mut taken: Vec<Outgoing> = Vec::new();
        std::mem::swap(&mut taken, &mut self.outbox);
        taken
    }
}

/// Filtering a sequence without duplicates leaves none.
proof fn lemma_filtered_distinct(s: Seq<u16>, keep: spec_fn(u16) -> bool, a: int, b: int)
    requires
        s.no_duplicates(),
        0 <= a < b < s.filter(keep).len(),
    ensures
        s.filter(keep)[a] != s.filter(keep)[b],
    decreases s.len(),
{
    broadcast use vstd::seq_lib::group_filter_ensures;

    reveal(Seq::filter);
    let rest = s.drop_last();
    assert(rest.no_duplicates());
    let fr = rest.filter(keep);
    if keep(s.last()) && b == fr.len() {
        assert(fr.contains(fr[a]));
        rest.lemma_filter_contains_rev(keep, fr[a]);
        assert(fr[a] != s.last());
    } else {
        lemma_filtered_distinct(rest, keep, a, b);
    }
}

} // verus!
