//! The candidate table of one lookup: known nodes, ranked by distance to a target.

use vstd::prelude::*;

use crate::common::{distance, lemma_distance_injective, Id, Node};

verus! {

/// Largest number of nodes that `closest` returns.
pub const MAX_CLOSEST: usize = 20;

/// No two nodes share an identifier.
pub open spec fn unique_ids(nodes: Seq<Node>) -> bool {
    forall|i: int, j: int| 0 <= i < j < nodes.len() ==> nodes[i].id@ != nodes[j].id@
}

/// Whether some node of `nodes` has the identifier of `node`.
pub open spec fn has_id(nodes: Seq<Node>, node: Node) -> bool {
    exists|i: int| 0 <= i < nodes.len() && nodes[i].id@ == node.id@
}

/// `nodes` with `node` added: it takes the place of the entry with the same identifier,
/// or is appended when there is none.
pub open spec fn inserted(nodes: Seq<Node>, node: Node) -> Seq<Node> {
    if has_id(nodes, node) {
        nodes.update(choose|i: int| 0 <= i < nodes.len() && nodes[i].id@ == node.id@, node)
    } else {
        nodes.push(node)
    }
}

/// `r` lists the nodes of `nodes` nearest to `target`, nearest first: at most
/// `MAX_CLOSEST` of them, and every node left out is farther than all of `r`, which
/// then holds `MAX_CLOSEST` nodes.
pub open spec fn is_closest(nodes: Seq<Node>, target: Id, r: Seq<Node>) -> bool {
    &&& r.len() <= MAX_CLOSEST
    &&& forall|i: int| 0 <= i < r.len() ==> nodes.contains(#[trigger] r[i])
    &&& forall|i: int, j: int|
        0 <= i < j < r.len() ==> distance(target, r[i].id) < distance(target, r[j].id)
    &&& forall|n: Node|
        #![trigger nodes.contains(n), r.contains(n)]
        nodes.contains(n) && !r.contains(n) ==> {
            &&& r.len() == MAX_CLOSEST
            &&& forall|i: int| 0 <= i < r.len() ==> distance(target, r[i].id) < distance(target, n.id)
        }
}

proof fn lemma_closest_agree_upto(nodes: Seq<Node>, target: Id, r1: Seq<Node>, r2: Seq<Node>, i: int)
    requires
        unique_ids(nodes),
        is_closest(nodes, target, r1),
        is_closest(nodes, target, r2),
        0 <= i < r1.len(),
        i < r2.len(),
    ensures
        forall|j: int| 0 <= j <= i ==> r1[j] == r2[j],
    decreases i,
{
    if i > 0 {
        lemma_closest_agree_upto(nodes, target, r1, r2, i - 1);
    }
    let x = r1[i];
    let y = r2[i];
    if x != y {
        assert(nodes.contains(x) && nodes.contains(y));
        lemma_closest_order(nodes, target, r1, r2, i);
        lemma_closest_order(nodes, target, r2, r1, i);
        lemma_distance_injective(target, x.id, y.id);
        let a = choose|a: int| 0 <= a < nodes.len() && nodes[a] == x;
        let b = choose|b: int| 0 <= b < nodes.len() && nodes[b] == y;
        assert(a == b);
    }
}

proof fn lemma_closest_order(nodes: Seq<Node>, target: Id, r1: Seq<Node>, r2: Seq<Node>, i: int)
    requires
        is_closest(nodes, target, r1),
        is_closest(nodes, target, r2),
        0 <= i < r1.len(),
        i < r2.len(),
        forall|j: int| 0 <= j < i ==> r1[j] == r2[j],
    ensures
        distance(target, r2[i].id) <= distance(target, r1[i].id),
{
    let x = r1[i];
    if distance(target, r1[i].id) < distance(target, r2[i].id) {
        assert(nodes.contains(x));
        if r2.contains(x) {
            let j = choose|j: int| 0 <= j < r2.len() && r2[j] == x;
            if j < i {
                assert(r1[j] == x);
            } else if j > i {
                assert(distance(target, r2[i].id) < distance(target, r2[j].id));
            }
        } else {
            assert(distance(target, r2[i].id) < distance(target, x.id));
        }
    }
}

/// The nearest nodes are determined by the table and the target: two lists that both
/// meet `is_closest` are equal.
pub proof fn lemma_closest_unique(nodes: Seq<Node>, target: Id, r1: Seq<Node>, r2: Seq<Node>)
    requires
        unique_ids(nodes),
        is_closest(nodes, target, r1),
        is_closest(nodes, target, r2),
    ensures
        r1 == r2,
{
    let m = if r1.len() < r2.len() { r1.len() } else { r2.len() };
    if m > 0 {
        lemma_closest_agree_upto(nodes, target, r1, r2, m - 1);
    }
    if r1.len() != r2.len() {
        let (long, short) = if r1.len() > r2.len() { (r1, r2) } else { (r2, r1) };
        let x = long[m as int];
        assert(nodes.contains(x));
        if short.contains(x) {
            let j = choose|j: int| 0 <= j < short.len() && short[j] == x;
            assert(long[j] == x);
            assert(distance(target, long[j].id) < distance(target, long[m as int].id));
        }
    }
    assert(r1 =~= r2);
}

/// What a routing table holds: the identifier it ranks around, and its nodes.
pub struct TableView {
    pub id: Id,
    pub nodes: Seq<Node>,
}

/// Nodes known to one lookup, kept with distinct identifiers.
#[derive(Debug)]
pub struct RoutingTable {
    id: Id,
    nodes: Vec<Node>,
}

impl View for RoutingTable {
    type V = TableView;

    closed spec fn view(&self) -> TableView {
        TableView { id: self.id, nodes: self.nodes@ }
    }
}

impl RoutingTable {
    pub open spec fn wf(&self) -> bool {
        unique_ids(self@.nodes)
    }

    /// An empty table that ranks around `id`.
    pub fn with_id(id: Id) -> (r: RoutingTable)
        ensures
            r.wf(),
            r@.id == id,
            r@.nodes == Seq::<Node>::empty(),
    {
        RoutingTable { id, nodes: Vec::new() }
    }

    pub fn is_empty(&self) -> (r: bool)
        ensures
            r == (self@.nodes.len() == 0),
    {
        self.nodes.len() == 0
    }

    /// Adds `node`, replacing the entry with the same identifier if there is one.
    pub fn add(&mut self, node: Node)
        requires
            old(self).wf(),
        ensures
            final(self).wf(),
            final(self)@.id == old(self)@.id,
            final(self)@.nodes == inserted(old(self)@.nodes, node),
    {
        let mut i: usize = 0;
        while i < self.nodes.len()
            invariant
                self@ == old(self)@,
                unique_ids(self.nodes@),
                i <= self.nodes@.len(),
                forall|k: int| 0 <= k < i ==> self.nodes@[k].id@ != node.id@,
            decreases self.nodes@.len() - i,
        {
            if self.nodes[i].id.same_as(&node.id) {
                let ghost before = self.nodes@;
                proof {
                    assert(before[i as int].id@ == node.id@);
                    assert(has_id(before, node));
                    let c = choose|k: int| 0 <= k < before.len() && before[k].id@ == node.id@;
                    assert(unique_ids(before));
                    assert(c == i as int);
                }
                self.nodes.set(i, node);
                proof {
                    assert(self.nodes@ == before.update(i as int, node));
                    assert forall|k: int| 0 <= k < before.len() implies #[trigger] self.nodes@[k].id@ == before[k].id@ by {}
                }
                return;
            }
            i += 1;
        }
        self.nodes.push(node);
    }

    /// The nodes nearest to `target`, nearest first.
    pub fn closest(&self, target: &Id) -> (r: Vec<Node>)
        requires
            self.wf(),
        ensures
            is_closest(self@.nodes, *target, r@),
    {
        let ghost nodes = self@.nodes;
        let n = self.nodes.len();
        let mut r: Vec<Node> = Vec::new();
        while r.len() < MAX_CLOSEST
            invariant
                nodes == self@.nodes,
                n == nodes.len(),
                unique_ids(nodes),
                r@.len() <= MAX_CLOSEST,
                forall|i: int| 0 <= i < r@.len() ==> nodes.contains(#[trigger] r@[i]),
                forall|i: int, j: int|
                    0 <= i < j < r@.len() ==> distance(*target, r@[i].id) < distance(*target, r@[j].id),
                r@.len() > 0 ==> forall|m: Node|
                    #![trigger nodes.contains(m), r@.contains(m)]
                    nodes.contains(m) && distance(*target, m.id) <= distance(*target, r@.last().id)
                        ==> r@.contains(m),
            ensures
                r@.len() == MAX_CLOSEST || forall|m: Node|
                    #![trigger nodes.contains(m), r@.contains(m)]
                    nodes.contains(m) ==> r@.contains(m),
            decreases MAX_CLOSEST - r@.len(),
        {
            let ghost rs = r@;
            let mut best: usize = n;
            let mut j: usize = 0;
            while j < n
                invariant
                    nodes == self@.nodes,
                    n == nodes.len(),
                    r@ == rs,
                    j <= n,
                    best == n || best < j,
                    best < n ==> (rs.len() == 0 || distance(*target, rs.last().id) < distance(*target, nodes[best as int].id)),
                    best < n ==> forall|k: int|
                        0 <= k < j && (rs.len() == 0 || distance(*target, rs.last().id) < distance(*target, nodes[k].id))
                            ==> distance(*target, nodes[best as int].id) <= distance(*target, #[trigger] nodes[k].id),
                    best == n ==> forall|k: int|
                        0 <= k < j ==> !(rs.len() == 0 || distance(*target, rs.last().id) < distance(*target, #[trigger] nodes[k].id)),
                decreases n - j,
            {
                let cand = self.nodes[j];
                let eligible = r.len() == 0 || target.closer(&r[r.len() - 1].id, &cand.id);
                if eligible && (best == n || target.closer(&cand.id, &self.nodes[best].id)) {
                    best = j;
                }
                j += 1;
            }
            if best == n {
                proof {
                    assert forall|m: Node| #![trigger nodes.contains(m)]
                        nodes.contains(m) implies r@.contains(m) by {
                        let k = choose|k: int| 0 <= k < nodes.len() && nodes[k] == m;
                        assert(forall|k2: int|
                            0 <= k2 < n ==> !(rs.len() == 0 || distance(*target, rs.last().id) < distance(
                                *target,
                                #[trigger] nodes[k2].id,
                            )));
                        assert(!(rs.len() == 0 || distance(*target, rs.last().id) < distance(*target, nodes[k].id)));
                    }
                }
                break;
            }
            let b = self.nodes[best];
            r.push(b);
            proof {
                assert(nodes.contains(b));
                assert forall|m: Node|
                    #![trigger nodes.contains(m), r@.contains(m)]
                    nodes.contains(m) && distance(*target, m.id) <= distance(*target, r@.last().id)
                        implies r@.contains(m) by {
                    let k = choose|k: int| 0 <= k < nodes.len() && nodes[k] == m;
                    if rs.len() > 0 && distance(*target, m.id) <= distance(*target, rs.last().id) {
                        assert(rs.contains(m));
                        let i = choose|i: int| 0 <= i < rs.len() && rs[i] == m;
                        assert(r@[i] == m);
                    } else {
                        assert(distance(*target, nodes[best as int].id) <= distance(*target, nodes[k].id));
                        lemma_distance_injective(*target, m.id, b.id);
                        assert(k == best as int);
                        assert(r@[rs.len() as int] == m);
                    }
                }
            }
        }
        proof {
            assert forall|m: Node|
                #![trigger nodes.contains(m), r@.contains(m)]
                nodes.contains(m) && !r@.contains(m) implies {
                    &&& r@.len() == MAX_CLOSEST
                    &&& forall|i: int| 0 <= i < r@.len() ==> distance(*target, r@[i].id) < distance(*target, m.id)
                } by {
                if r@.len() > 0 {
                    assert(distance(*target, r@.last().id) < distance(*target, m.id));
                    assert forall|i: int| 0 <= i < r@.len() implies distance(*target, r@[i].id) < distance(*target, m.id) by {
                        if i < r@.len() - 1 {
                            assert(distance(*target, r@[i].id) < distance(*target, r@[r@.len() - 1].id));
                        }
                    }
                }
            }
        }
        r
    }
}

} // verus!
