//! One iterative lookup: whom to query next, which requests are outstanding, and
//! which addresses were already queried.

use vstd::prelude::*;

use crate::common::{Address, Id, Node};
use crate::messages::Request;
use crate::routing_table::{inserted, is_closest, unique_ids, RoutingTable, MAX_CLOSEST};
use crate::transport::{Outgoing, Transport, TransportView, TOKEN_SPACE};

verus! {

/// What a lookup holds.
pub struct QueryView {
    pub target: Id,
    pub request: Request,
    /// The candidate table's nodes.
    pub table: Seq<Node>,
    /// Tokens of requests sent and not yet resolved, oldest first.
    pub inflight: Seq<u16>,
    /// Addresses queried since the last reset, in the order they were queried.
    pub visited: Seq<Address>,
    /// How many times `visited` was reset, saturating at `u64::MAX`.
    pub resets: u64,
}

/// Each address is queried once per pass, and only if requests can reach it.
pub open spec fn visited_ok(visited: Seq<Address>) -> bool {
    &&& visited.no_duplicates()
    &&& forall|i: int| 0 <= i < visited.len() ==> (#[trigger] visited[i]).supported()
}

/// The table after inserting `nodes` one after another.
pub open spec fn insert_all(table: Seq<Node>, nodes: Seq<Node>) -> Seq<Node>
    decreases nodes.len(),
{
    if nodes.len() == 0 {
        table
    } else {
        inserted(insert_all(table, nodes.drop_last()), nodes.last())
    }
}

/// `s2` is `s` without its first occurrence of `x`.
pub open spec fn removed_first(s: Seq<u16>, x: u16, s2: Seq<u16>) -> bool {
    exists|i: int|
        0 <= i < s.len() && s[i] == x && (forall|j: int| 0 <= j < i ==> s[j] != x) && s2 == s.remove(i)
}

/// The effect of `visit(address)` on a lookup `q` and a transport `t`: nothing when the
/// address was already queried in this pass or cannot be reached; otherwise one request,
/// under a token that was not pending, and the address joins `visited`.
pub open spec fn visit_effect(
    q: QueryView,
    t: TransportView,
    address: Address,
    q2: QueryView,
    t2: TransportView,
) -> bool {
    if q.visited.contains(address) || !address.supported() {
        q2 == q && t2 == t
    } else {
        let tid = q2.inflight.last();
        &&& q2 == QueryView {
            inflight: q.inflight.push(tid),
            visited: q.visited.push(address),
            ..q
        }
        &&& !t.inflight.contains(tid)
        &&& t2.inflight == t.inflight.push(tid)
        &&& t2.outbox == t.outbox.push(Outgoing { tid, address, request: q.request })
    }
}

/// Keeps the tokens that `t` still reports as pending.
pub open spec fn pending_in(t: TransportView) -> spec_fn(u16) -> bool {
    |tid: u16| t.inflight.contains(tid)
}

/// `visited` after visiting the addresses of `frontier` in order: an address joins it
/// when it is not in it yet and requests can reach it.
pub open spec fn expand_visited(visited: Seq<Address>, frontier: Seq<Node>) -> Seq<Address>
    decreases frontier.len(),
{
    if frontier.len() == 0 {
        visited
    } else {
        let v = expand_visited(visited, frontier.drop_last());
        let a = frontier.last().address;
        if v.contains(a) || !a.supported() {
            v
        } else {
            v.push(a)
        }
    }
}

/// The effect of one `tick` on a lookup `q` and a transport `t`, where `frontier` is the
/// lookup's closest candidates: tokens that `t` no longer reports are dropped, each new
/// address of the frontier gets one request, and `visited` is cleared when nothing is
/// left pending.
pub open spec fn step_effect(
    q: QueryView,
    t: TransportView,
    frontier: Seq<Node>,
    q2: QueryView,
    t2: TransportView,
) -> bool {
    let reaped = q.inflight.filter(pending_in(t));
    let expanded = expand_visited(q.visited, frontier);
    let sent = expanded.subrange(q.visited.len() as int, expanded.len() as int);
    let tids = q2.inflight.subrange(reaped.len() as int, q2.inflight.len() as int);
    &&& q2.target == q.target
    &&& q2.request == q.request
    &&& q2.table == q.table
    &&& q2.inflight.len() == reaped.len() + sent.len()
    &&& q2.inflight.subrange(0, reaped.len() as int) == reaped
    &&& t2.inflight == t.inflight + tids
    &&& t2.outbox == t.outbox + Seq::new(
        sent.len(),
        |i: int| Outgoing { tid: tids[i], address: sent[i], request: q.request },
    )
    &&& q2.visited == if q2.inflight.len() == 0 && expanded.len() > 0 {
        Seq::empty()
    } else {
        expanded
    }
    &&& q2.resets == if q2.inflight.len() == 0 && expanded.len() > 0 && q.resets < u64::MAX {
        (q.resets + 1) as u64
    } else {
        q.resets
    }
}

/// Expanding keeps what was visited, adds at most one address per frontier node, and
/// adds only reachable addresses that were not visited.
pub proof fn lemma_expand_fresh(visited: Seq<Address>, frontier: Seq<Node>)
    ensures
        visited.len() <= expand_visited(visited, frontier).len(),
        expand_visited(visited, frontier).len() <= visited.len() + frontier.len(),
        expand_visited(visited, frontier).subrange(0, visited.len() as int) == visited,
        forall|k: int|
            visited.len() <= k < expand_visited(visited, frontier).len() ==> {
                &&& !visited.contains(#[trigger] expand_visited(visited, frontier)[k])
                &&& expand_visited(visited, frontier)[k].supported()
            },
        visited_ok(visited) ==> visited_ok(expand_visited(visited, frontier)),
    decreases frontier.len(),
{
    if frontier.len() == 0 {
        assert(visited.subrange(0, visited.len() as int) =~= visited);
    } else {
        let rest = frontier.drop_last();
        lemma_expand_fresh(visited, rest);
        let v = expand_visited(visited, rest);
        let a = frontier.last().address;
        if !(v.contains(a) || !a.supported()) {
            let e = v.push(a);
            assert(e.subrange(0, visited.len() as int) =~= v.subrange(0, visited.len() as int));
            assert(!visited.contains(a)) by {
                if visited.contains(a) {
                    let i = choose|i: int| 0 <= i < visited.len() && visited[i] == a;
                    assert(v.subrange(0, visited.len() as int)[i] == a);
                    assert(v[i] == a);
                }
            }
            assert forall|k: int| visited.len() <= k < e.len() implies {
                &&& !visited.contains(#[trigger] e[k])
                &&& e[k].supported()
            } by {
                if k < v.len() {
                    assert(e[k] == v[k]);
                }
            }
            if visited_ok(visited) {
                assert forall|x: int, y: int| 0 <= x < y < e.len() implies e[x] != e[y] by {
                    if y == v.len() {
                        assert(v.contains(e[x]));
                    }
                }
                assert forall|i: int| 0 <= i < e.len() implies (#[trigger] e[i]).supported() by {
                    if i < v.len() {
                        assert(e[i] == v[i]);
                    }
                }
            }
        }
    }
}

/// Every reachable address of the frontier is in `visited` once it has been expanded.
pub proof fn lemma_expand_covers(visited: Seq<Address>, frontier: Seq<Node>)
    ensures
        forall|i: int|
            0 <= i < frontier.len() && (#[trigger] frontier[i]).address.supported()
                ==> expand_visited(visited, frontier).contains(frontier[i].address),
    decreases frontier.len(),
{
    if frontier.len() > 0 {
        let rest = frontier.drop_last();
        lemma_expand_covers(visited, rest);
        let v = expand_visited(visited, rest);
        let e = expand_visited(visited, frontier);
        let a = frontier.last().address;
        assert forall|i: int|
            0 <= i < frontier.len() && (#[trigger] frontier[i]).address.supported()
                implies e.contains(frontier[i].address) by {
            if i < frontier.len() - 1 {
                assert(rest[i] == frontier[i]);
                let k = choose|k: int| 0 <= k < v.len() && v[k] == frontier[i].address;
                if e != v {
                    assert(e[k] == v[k]);
                }
            } else if v.contains(a) {
                let k = choose|k: int| 0 <= k < v.len() && v[k] == a;
                if e != v {
                    assert(e[k] == v[k]);
                }
            } else {
                assert(e[v.len() as int] == a);
            }
        }
    }
}

/// Visiting an address twice before a reset sends at most one request: the second visit
/// changes nothing, and the first sends exactly one when the address is reachable.
pub proof fn lemma_visit_twice_sends_once(
    q0: QueryView,
    t0: TransportView,
    address: Address,
    q1: QueryView,
    t1: TransportView,
    q2: QueryView,
    t2: TransportView,
)
    requires
        !q0.visited.contains(address),
        visit_effect(q0, t0, address, q1, t1),
        visit_effect(q1, t1, address, q2, t2),
    ensures
        q2 == q1,
        t2 == t1,
        t2.outbox.len() == t0.outbox.len() + if address.supported() { 1int } else { 0int },
{
    if address.supported() {
        assert(q1.visited[q1.visited.len() - 1] == address);
    }
}

/// No request goes to an address that cannot be reached, and such an address never
/// enters `visited`.
pub proof fn lemma_unsupported_never_sent(
    q0: QueryView,
    t0: TransportView,
    address: Address,
    q1: QueryView,
    t1: TransportView,
)
    requires
        !address.supported(),
        visited_ok(q0.visited),
        visit_effect(q0, t0, address, q1, t1),
    ensures
        q1 == q0,
        t1 == t0,
        !q1.visited.contains(address),
{
}

/// After a reset, the next step sends a request to every reachable address of the
/// frontier again.
pub proof fn lemma_step_after_reset(
    q: QueryView,
    t: TransportView,
    frontier: Seq<Node>,
    q2: QueryView,
    t2: TransportView,
)
    requires
        q.visited.len() == 0,
        step_effect(q, t, frontier, q2, t2),
    ensures
        forall|i: int|
            0 <= i < frontier.len() && (#[trigger] frontier[i]).address.supported() ==> exists|k: int|
                t.outbox.len() <= k < t2.outbox.len() && t2.outbox[k].address == frontier[i].address,
{
    let expanded = expand_visited(q.visited, frontier);
    lemma_expand_covers(q.visited, frontier);
    lemma_expand_fresh(q.visited, frontier);
    assert(expanded.subrange(0, expanded.len() as int) =~= expanded);
    assert forall|i: int|
        0 <= i < frontier.len() && (#[trigger] frontier[i]).address.supported() implies exists|k: int|
            t.outbox.len() <= k < t2.outbox.len() && t2.outbox[k].address == frontier[i].address by {
        let j = choose|j: int| 0 <= j < expanded.len() && expanded[j] == frontier[i].address;
        let k = t.outbox.len() + j;
        assert(t2.outbox[k].address == expanded[j]);
    }
}

/// A lookup for one target: sends its request to the nodes nearest the target, takes in
/// the nodes that answers report, and repeats with whatever came closer.
#[derive(Debug)]
pub struct Query {
    target: Id,
    request: Request,
    table: RoutingTable,
    inflight_requests: Vec<u16>,
    visited: Vec<Address>,
    resets: u64,
}

impl View for Query {
    type V = QueryView;

    closed spec fn view(&self) -> QueryView {
        QueryView {
            target: self.target,
            request: self.request,
            table: self.table@.nodes,
            inflight: self.inflight_requests@,
            visited: self.visited@,
            resets: self.resets,
        }
    }
}

impl Query {
    /// The candidate table ranks around the lookup's target.
    pub closed spec fn ranks_by_target(&self) -> bool {
        self.table@.id == self.target
    }

    pub open spec fn wf(&self) -> bool {
        &&& self.ranks_by_target()
        &&& unique_ids(self@.table)
        &&& visited_ok(self@.visited)
    }

    pub fn new(target: Id, request: Request) -> (r: Query)
        ensures
            r.wf(),
            r@ == (QueryView {
                target,
                request,
                table: Seq::empty(),
                inflight: Seq::empty(),
                visited: Seq::empty(),
                resets: 0,
            }),
    {
        let table = RoutingTable::with_id(target);
        let r = Query { target, request, table, inflight_requests: Vec::new(), visited: Vec::new(), resets: 0 };
        assert(r@.table == Seq::<Node>::empty());
        r
    }

    /// Whether the candidate table holds no node.
    pub fn is_empty(&self) -> (r: bool)
        ensures
            r == (self@.table.len() == 0),
    {
        self.table.is_empty()
    }

    /// Whether no request is outstanding. This is also the case right after a reset,
    /// so it does not by itself mean that the lookup has converged.
    pub fn is_done(&self) -> (r: bool)
        ensures
            r == (self@.inflight.len() == 0),
    {
        self.inflight_requests.len() == 0
    }

    /// The candidates nearest to this lookup's own target, nearest first. The argument is
    /// ignored: ranking is always against the target the lookup was made with.
    pub fn closest(&self, _target: &Id) -> (r: Vec<Node>)
        requires
            self.wf(),
        ensures
            is_closest(self@.table, self@.target, r@),
    {
        self.table.closest(&self.target)
    }

    pub fn target(&self) -> (r: Id)
        ensures
            r == self@.target,
    {
        self.target
    }

    /// Tokens of the outstanding requests, oldest first.
    pub fn inflight_requests(&self) -> (r: &Vec<u16>)
        ensures
            r@ == self@.inflight,
    {
        &self.inflight_requests
    }

    /// How many passes ended in a reset so far. A reset also schedules the same frontier
    /// again, so a driver decides from this count, and from whether `closest` changed,
    /// when to stop polling.
    pub fn resets(&self) -> (r: u64)
        ensures
            r == self@.resets,
    {
        self.resets
    }

    /// Addresses queried since the last reset.
    pub fn visited(&self) -> (r: &Vec<Address>)
        ensures
            r@ == self@.visited,
    {
        &self.visited
    }

    /// Adds a node to the candidate table, whatever its address.
    pub fn add(&mut self, node: Node)
        requires
            old(self).wf(),
        ensures
            final(self).wf(),
            final(self)@ == (QueryView { table: inserted(old(self)@.table, node), ..old(self)@ }),
    {
        self.table.add(node);
    }

    fn has_visited(&self, address: &Address) -> (r: bool)
        ensures
            r == self@.visited.contains(*address),
    {
        let mut i: usize = 0;
        while i < self.visited.len()
            invariant
                i <= self.visited@.len(),
                forall|k: int| 0 <= k < i ==> self.visited@[k] != *address,
            decreases self.visited@.len() - i,
        {
            if self.visited[i] == *address {
                return true;
            }
            i += 1;
        }
        false
    }

    /// Sends the lookup's request to `address`, unless it was queried in this pass or is
    /// an IPv6 address, which is not handled yet.
    pub fn visit(&mut self, transport: &mut Transport, address: Address)
        requires
            old(self).wf(),
            old(transport).wf(),
            old(transport)@.inflight.len() < TOKEN_SPACE,
        ensures
            final(self).wf(),
            final(transport).wf(),
            visit_effect(old(self)@, old(transport)@, address, final(self)@, final(transport)@),
    {
        if self.has_visited(&address) || address.is_ipv6() {
            return;
        }
        let tid = transport.request(address, self.request);
        self.inflight_requests.push(tid);
        self.visited.push(address);
        proof {
            let v = self@.visited;
            assert(v.last() == address);
            assert(v.drop_last() == old(self)@.visited);
            assert forall|a: int, b: int| 0 <= a < b < v.len() implies v[a] != v[b] by {
                if b == v.len() - 1 {
                    assert(old(self)@.visited.contains(v[a]));
                }
            }
        }
    }

    /// If `tid` belongs to a request of this lookup, resolves it, adds `nodes` to the
    /// candidate table and returns true; otherwise changes nothing and returns false.
    pub fn add_candidates(&mut self, tid: u16, transport: &mut Transport, nodes: &Vec<Node>) -> (r: bool)
        requires
            old(self).wf(),
        ensures
            final(self).wf(),
            *final(transport) == *old(transport),
            r == old(self)@.inflight.contains(tid),
            !r ==> final(self)@ == old(self)@,
            r ==> {
                &&& removed_first(old(self)@.inflight, tid, final(self)@.inflight)
                &&& final(self)@.table == insert_all(old(self)@.table, nodes@)
                &&& final(self)@.target == old(self)@.target
                &&& final(self)@.request == old(self)@.request
                &&& final(self)@.visited == old(self)@.visited
                &&& final(self)@.resets == old(self)@.resets
            },
    {
        let mut index: usize = 0;
        while index < self.inflight_requests.len()
            invariant
                *self == *old(self),
                index <= self@.inflight.len(),
                forall|j: int| 0 <= j < index ==> self@.inflight[j] != tid,
            ensures
                *self == *old(self),
                index <= self@.inflight.len(),
                forall|j: int| 0 <= j < index ==> self@.inflight[j] != tid,
                index < self@.inflight.len() ==> self@.inflight[index as int] == tid,
            decreases self@.inflight.len() - index,
        {
            if self.inflight_requests[index] == tid {
                break;
            }
            index += 1;
        }
        if index == self.inflight_requests.len() {
            assert(!self@.inflight.contains(tid));
            return false;
        }
        assert(self@.inflight[index as int] == tid);
        self.inflight_requests.remove(index);
        assert(removed_first(old(self)@.inflight, tid, self@.inflight)) by {
            assert(old(self)@.inflight[index as int] == tid);
        }
        let ghost q1 = self@;
        let mut i: usize = 0;
        while i < nodes.len()
            invariant
                self.wf(),
                i <= nodes@.len(),
                self@ == (QueryView { table: insert_all(old(self)@.table, nodes@.subrange(0, i as int)), ..q1 }),
                q1.table == old(self)@.table,
            decreases nodes@.len() - i,
        {
            let node = nodes[i];
            self.add(node);
            proof {
                let pre = nodes@.subrange(0, i + 1);
                assert(pre.drop_last() =~= nodes@.subrange(0, i as int));
            }
            i += 1;
        }
        assert(nodes@.subrange(0, nodes@.len() as int) =~= nodes@);
        true
    }
    /// Drops the tokens that the transport no longer reports as pending: answered or
    /// timed out, which the lookup does not tell apart.
    fn clear_timedout_requests(&mut self, transport: &Transport)
        requires
            old(self).wf(),
        ensures
            final(self).wf(),
            final(self)@ == (QueryView {
                inflight: old(self)@.inflight.filter(pending_in(transport@)),
                ..old(self)@
            }),
    {
        let ghost before = self@.inflight;
        let mut kept: Vec<u16> = Vec::new();
        let mut i: usize = 0;
        while i < self.inflight_requests.len()
            invariant
                *self == *old(self),
                before == self@.inflight,
                i <= before.len(),
                kept@ == before.subrange(0, i as int).filter(pending_in(transport@)),
            decreases before.len() - i,
        {
            let tid = self.inflight_requests[i];
            let still = transport.is_pending(tid);
            proof {
                let prefix = before.subrange(0, i as int);
                assert(before.subrange(0, i + 1) =~= prefix.push(tid));
                prefix.lemma_filter_push(tid, pending_in(transport@));
                assert(pending_in(transport@)(tid) == still);
            }
            if still {
                kept.push(tid);
            }
            i += 1;
        }
        assert(before.subrange(0, before.len() as int) =~= before);
        self.inflight_requests = kept;
    }

    /// Visits the closest candidates in order.
    fn visit_closest(&mut self, transport: &mut Transport) -> (frontier: Ghost<Seq<Node>>)
        requires
            old(self).wf(),
            old(transport).wf(),
            old(transport)@.inflight.len() + MAX_CLOSEST <= TOKEN_SPACE,
        ensures
            final(self).wf(),
            final(transport).wf(),
            is_closest(old(self)@.table, old(self)@.target, frontier@),
            ({
                let q = old(self)@;
                let q2 = final(self)@;
                let t = old(transport)@;
                let expanded = expand_visited(q.visited, frontier@);
                let sent = expanded.subrange(q.visited.len() as int, expanded.len() as int);
                let tids = q2.inflight.subrange(q.inflight.len() as int, q2.inflight.len() as int);
                &&& q2.target == q.target
                &&& q2.request == q.request
                &&& q2.table == q.table
                &&& q2.visited == expanded
                &&& q2.resets == q.resets
                &&& q2.inflight.len() == q.inflight.len() + sent.len()
                &&& q2.inflight.subrange(0, q.inflight.len() as int) == q.inflight
                &&& final(transport)@.inflight == t.inflight + tids
                &&& final(transport)@.outbox == t.outbox + Seq::new(
                    sent.len(),
                    |i: int| Outgoing { tid: tids[i], address: sent[i], request: q.request },
                )
            }),
    {
        let to_visit = self.table.closest(&self.target);
        let ghost f = to_visit@;
        let ghost q = self@;
        let ghost t = transport@;
        proof {
            lemma_expand_fresh(q.visited, f);
        }
        let mut j: usize = 0;
        while j < to_visit.len()
            invariant
                self.wf(),
                transport.wf(),
                f == to_visit@,
                f.len() <= MAX_CLOSEST,
                t.inflight.len() + MAX_CLOSEST <= TOKEN_SPACE,
                j <= f.len(),
                self@.target == q.target,
                self@.request == q.request,
                self@.table == q.table,
                self@.resets == q.resets,
                self@.visited == expand_visited(q.visited, f.subrange(0, j as int)),
                q.visited.len() <= self@.visited.len() <= q.visited.len() + j,
                self@.visited.subrange(0, q.visited.len() as int) == q.visited,
                self@.inflight.len() == q.inflight.len() + (self@.visited.len() - q.visited.len()),
                self@.inflight.subrange(0, q.inflight.len() as int) == q.inflight,
                transport@.inflight == t.inflight + self@.inflight.subrange(
                    q.inflight.len() as int,
                    self@.inflight.len() as int,
                ),
                transport@.outbox == t.outbox + Seq::new(
                    (self@.visited.len() - q.visited.len()) as nat,
                    |i: int| Outgoing {
                        tid: self@.inflight[q.inflight.len() + i],
                        address: self@.visited[q.visited.len() + i],
                        request: q.request,
                    },
                ),
            decreases f.len() - j,
        {
            let node = to_visit[j];
            let ghost q1 = self@;
            let ghost t1 = transport@;
            proof {
                lemma_expand_fresh(q.visited, f.subrange(0, j + 1));
                assert(f.subrange(0, j + 1).drop_last() =~= f.subrange(0, j as int));
            }
            self.visit(transport, node.address);
            proof {
                let q2 = self@;
                let n1 = (q1.visited.len() - q.visited.len()) as nat;
                if !(q1.visited.contains(node.address) || !node.address.supported()) {
                    assert(q2.visited.subrange(0, q.visited.len() as int) =~= q1.visited.subrange(0, q.visited.len() as int));
                    assert(q2.inflight.subrange(0, q.inflight.len() as int) =~= q1.inflight.subrange(0, q.inflight.len() as int));
                    assert(transport@.inflight =~= t.inflight + q2.inflight.subrange(q.inflight.len() as int, q2.inflight.len() as int));
                    assert(transport@.outbox =~= t.outbox + Seq::new(
                        n1 + 1,
                        |i: int| Outgoing {
                            tid: q2.inflight[q.inflight.len() + i],
                            address: q2.visited[q.visited.len() + i],
                            request: q.request,
                        },
                    ));
                }
            }
            j += 1;
        }
        proof {
            assert(f.subrange(0, f.len() as int) =~= f);
            let q2 = self@;
            let expanded = expand_visited(q.visited, f);
            let sent = expanded.subrange(q.visited.len() as int, expanded.len() as int);
            let tids = q2.inflight.subrange(q.inflight.len() as int, q2.inflight.len() as int);
            assert(Seq::new(
                sent.len(),
                |i: int| Outgoing { tid: tids[i], address: sent[i], request: q.request },
            ) =~= Seq::new(
                (q2.visited.len() - q.visited.len()) as nat,
                |i: int| Outgoing {
                    tid: q2.inflight[q.inflight.len() + i],
                    address: q2.visited[q.visited.len() + i],
                    request: q.request,
                },
            ));
        }
        Ghost(f)
    }

    /// Clears `visited` when no request is outstanding, so that the next tick queries the
    /// closest candidates again.
    fn cleanup_after_finish(&mut self)
        requires
            old(self).wf(),
        ensures
            final(self).wf(),
            final(self)@ == (QueryView {
                visited: if old(self)@.inflight.len() == 0 && old(self)@.visited.len() > 0 {
                    Seq::empty()
                } else {
                    old(self)@.visited
                },
                resets: if old(self)@.inflight.len() == 0 && old(self)@.visited.len() > 0
                    && old(self)@.resets < u64::MAX {
                    (old(self)@.resets + 1) as u64
                } else {
                    old(self)@.resets
                },
                ..old(self)@
            }),
    {
        if self.inflight_requests.len() == 0 && self.visited.len() > 0 {
            self.visited = Vec::new();
            if self.resets < u64::MAX {
                self.resets = self.resets + 1;
            }
        }
    }

    /// Advances the lookup by one step: drops resolved or expired tokens, sends the
    /// request to each closest candidate not queried in this pass, and clears `visited`
    /// once nothing is pending.
    pub fn tick(&mut self, transport: &mut Transport)
        requires
            old(self).wf(),
            old(transport).wf(),
            old(transport)@.inflight.len() + MAX_CLOSEST <= TOKEN_SPACE,
        ensures
            final(self).wf(),
            final(transport).wf(),
            exists|frontier: Seq<Node>|
                is_closest(old(self)@.table, old(self)@.target, frontier) && step_effect(
                    old(self)@,
                    old(transport)@,
                    frontier,
                    final(self)@,
                    final(transport)@,
                ),
            forall|k: int|
                old(transport)@.outbox.len() <= k < final(transport)@.outbox.len() ==> {
                    &&& !old(self)@.visited.contains(#[trigger] final(transport)@.outbox[k].address)
                    &&& final(transport)@.outbox[k].address.supported()
                },
            final(self)@.inflight.len() > 0 ==> final(self)@.visited.subrange(
                0,
                old(self)@.visited.len() as int,
            ) == old(self)@.visited,
            final(self)@.inflight.len() == 0 ==> final(self)@.visited.len() == 0,
            old(self)@.table.len() == 0 ==> final(transport)@.outbox == old(transport)@.outbox,
    {
        let ghost q = self@;
        let ghost t = transport@;
        self.clear_timedout_requests(transport);
        let ghost q1 = self@;
        let frontier = self.visit_closest(transport);
        let ghost q2 = self@;
        self.cleanup_after_finish();
        proof {
            let f = frontier@;
            let expanded = expand_visited(q.visited, f);
            let reaped = q1.inflight;
            let sent = expanded.subrange(q.visited.len() as int, expanded.len() as int);
            lemma_expand_fresh(q.visited, f);
            assert(step_effect(q, t, f, self@, transport@));
            assert forall|k: int|
                t.outbox.len() <= k < transport@.outbox.len() implies {
                    &&& !q.visited.contains(#[trigger] transport@.outbox[k].address)
                    &&& transport@.outbox[k].address.supported()
                } by {
                let i = k - t.outbox.len();
                assert(transport@.outbox[k].address == sent[i]);
                assert(sent[i] == expanded[q.visited.len() + i]);
            }
            if q.table.len() == 0 {
                assert(f.len() == 0) by {
                    if f.len() > 0 {
                        assert(q.table.contains(f[0]));
                    }
                }
                assert(transport@.outbox =~= t.outbox);
            }
        }
    }
}

} // verus!
