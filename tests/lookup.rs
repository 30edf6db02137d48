use dht_lookup::common::{Address, Id, Node};
use dht_lookup::messages::Request;
use dht_lookup::query::Query;
use dht_lookup::routing_table::{RoutingTable, MAX_CLOSEST};
use dht_lookup::transport::Transport;

fn id_ending(last: u8) -> Id {
    let mut bytes = [0u8; 20];
    bytes[19] = last;
    Id::from_bytes(bytes)
}

fn v4(host: u32) -> Address {
    Address::V4 { ipv4: 0x0a00_0000 + host, port: 6881 }
}

fn node(last: u8) -> Node {
    Node::new(id_ending(last), v4(last as u32))
}

fn new_query() -> Query {
    let target = id_ending(0);
    Query::new(target, Request::FindNode { target })
}

fn addresses_sent(transport: &mut Transport) -> Vec<Address> {
    transport.take_outbox().iter().map(|o| o.address).collect()
}

#[test]
fn scenario_full_lookup_cycle() {
    let mut query = new_query();
    let mut transport = Transport::new();
    let a = node(2);
    let b = node(4);
    let c = node(3);
    query.add(a);
    query.add(b);

    // Both seeds are unvisited and closest-ranked: both get a request.
    query.tick(&mut transport);
    let sent = transport.take_outbox();
    assert_eq!(sent.len(), 2);
    assert_eq!(sent[0].address, a.address);
    assert_eq!(sent[1].address, b.address);
    assert_eq!(sent[0].request, Request::FindNode { target: id_ending(0) });
    let token_a = sent[0].tid;
    let token_b = sent[1].tid;
    assert_ne!(token_a, token_b);
    assert_eq!(query.inflight_requests(), &vec![token_a, token_b]);
    assert_eq!(query.visited(), &vec![a.address, b.address]);

    // A answers with C, which is closer than B.
    assert!(transport.complete(token_a));
    assert!(query.add_candidates(token_a, &mut transport, &vec![c]));
    assert_eq!(query.closest(&id_ending(0)), vec![a, c, b]);
    assert_eq!(query.inflight_requests(), &vec![token_b]);

    // B times out: the next tick reaps it and queries C.
    assert!(transport.complete(token_b));
    query.tick(&mut transport);
    let sent = transport.take_outbox();
    assert_eq!(sent.len(), 1);
    assert_eq!(sent[0].address, c.address);
    let token_c = sent[0].tid;
    assert_eq!(query.inflight_requests(), &vec![token_c]);
    assert_eq!(query.visited(), &vec![a.address, b.address, c.address]);
    assert!(!query.is_done());
    assert_eq!(query.resets(), 0);

    // C goes away with nothing closer: the pass is exhausted and visited is reset.
    assert!(transport.complete(token_c));
    query.tick(&mut transport);
    assert!(addresses_sent(&mut transport).is_empty());
    assert!(query.is_done());
    assert!(query.visited().is_empty());
    assert_eq!(query.resets(), 1);

    // The next tick queries the same frontier again.
    query.tick(&mut transport);
    assert_eq!(addresses_sent(&mut transport), vec![a.address, c.address, b.address]);
    assert_eq!(query.inflight_requests().len(), 3);
}

#[test]
fn visit_twice_sends_once() {
    let mut query = new_query();
    let mut transport = Transport::new();
    query.visit(&mut transport, v4(7));
    query.visit(&mut transport, v4(7));
    assert_eq!(addresses_sent(&mut transport), vec![v4(7)]);
    assert_eq!(query.inflight_requests().len(), 1);
    assert_eq!(query.visited(), &vec![v4(7)]);
}

#[test]
fn unknown_token_changes_nothing() {
    let mut query = new_query();
    let mut transport = Transport::new();
    query.add(node(5));
    query.tick(&mut transport);
    let before = query.inflight_requests().clone();
    let unknown = before[0].wrapping_add(1);
    assert!(!query.add_candidates(unknown, &mut transport, &vec![node(1)]));
    assert_eq!(query.inflight_requests(), &before);
    assert_eq!(query.closest(&id_ending(0)), vec![node(5)]);
}

#[test]
fn tick_does_not_requery_within_a_pass() {
    let mut query = new_query();
    let mut transport = Transport::new();
    query.add(node(1));
    query.add(node(2));
    query.tick(&mut transport);
    assert_eq!(addresses_sent(&mut transport).len(), 2);
    query.tick(&mut transport);
    assert!(addresses_sent(&mut transport).is_empty());
    query.add(node(9));
    query.tick(&mut transport);
    assert_eq!(addresses_sent(&mut transport), vec![v4(9)]);
    assert_eq!(query.visited(), &vec![v4(1), v4(2), v4(9)]);
}

#[test]
fn empty_table_sends_nothing() {
    let mut query = new_query();
    let mut transport = Transport::new();
    assert!(query.is_empty());
    query.tick(&mut transport);
    assert!(addresses_sent(&mut transport).is_empty());
    assert_eq!(transport.pending_count(), 0);
    assert_eq!(query.resets(), 0);
    assert!(query.visited().is_empty());
}

#[test]
fn reset_clears_visited_and_allows_requery() {
    let mut query = new_query();
    let mut transport = Transport::new();
    query.add(node(6));
    query.tick(&mut transport);
    let token = query.inflight_requests()[0];
    assert!(transport.complete(token));
    query.tick(&mut transport);
    assert!(query.visited().is_empty());
    transport.take_outbox();
    query.tick(&mut transport);
    assert_eq!(addresses_sent(&mut transport), vec![v4(6)]);
    assert_eq!(query.visited(), &vec![v4(6)]);
}

#[test]
fn ipv6_is_never_queried() {
    let mut query = new_query();
    let mut transport = Transport::new();
    let six = Address::V6 { ipv6: 1, port: 6881 };
    assert!(six.is_ipv6());
    assert!(!six.is_supported());
    query.visit(&mut transport, six);
    assert!(addresses_sent(&mut transport).is_empty());
    assert!(query.visited().is_empty());

    query.add(Node::new(id_ending(8), six));
    query.add(node(9));
    query.tick(&mut transport);
    assert_eq!(addresses_sent(&mut transport), vec![v4(9)]);
    assert_eq!(query.visited(), &vec![v4(9)]);
}

#[test]
fn closest_ranks_by_own_target_and_caps_count() {
    let mut query = new_query();
    for last in (1..=30u8).rev() {
        query.add(node(last));
    }
    // The argument is ignored: ranking is against the lookup's target.
    let closest = query.closest(&id_ending(255));
    assert_eq!(closest.len(), MAX_CLOSEST);
    let expected: Vec<Node> = (1..=20u8).map(node).collect();
    assert_eq!(closest, expected);
}

#[test]
fn closest_orders_by_xor_distance() {
    let mut bytes = [0u8; 20];
    bytes[0] = 0x80;
    let target = Id::from_bytes(bytes);
    let mut table = RoutingTable::with_id(target);
    let far = Node::new(id_ending(1), v4(1));
    let mut near_bytes = [0u8; 20];
    near_bytes[0] = 0x81;
    let near = Node::new(Id::from_bytes(near_bytes), v4(2));
    table.add(far);
    table.add(near);
    assert_eq!(table.closest(&target), vec![near, far]);
    assert_eq!(table.closest(&id_ending(0)), vec![far, near]);
}

#[test]
fn adding_same_id_replaces_address() {
    let mut query = new_query();
    query.add(Node::new(id_ending(3), v4(3)));
    query.add(Node::new(id_ending(3), v4(33)));
    assert_eq!(query.closest(&id_ending(0)), vec![Node::new(id_ending(3), v4(33))]);
}

#[test]
fn closer_compares_xor_distance() {
    let target = id_ending(0b0110);
    assert!(target.closer(&id_ending(0b0111), &id_ending(0b0100)));
    assert!(!target.closer(&id_ending(0b0100), &id_ending(0b0111)));
    assert!(!target.closer(&id_ending(9), &id_ending(9)));
    assert!(target.same_as(&id_ending(6)));
    assert!(!target.same_as(&id_ending(7)));
}

#[test]
fn transport_tokens_are_fresh_and_completed_once() {
    let mut transport = Transport::new();
    let request = Request::GetPeers { info_hash: id_ending(1) };
    let first = transport.request(v4(1), request);
    let second = transport.request(v4(2), request);
    assert_ne!(first, second);
    assert!(transport.is_pending(first));
    assert_eq!(transport.pending_count(), 2);
    assert!(transport.complete(first));
    assert!(!transport.complete(first));
    assert!(!transport.is_pending(first));
    assert!(transport.is_pending(second));
    let outbox = transport.take_outbox();
    assert_eq!(outbox.len(), 2);
    assert_eq!(outbox[1].tid, second);
    assert_eq!(outbox[1].request, request);
    assert!(transport.take_outbox().is_empty());
}

#[test]
fn answered_token_is_taken_once() {
    let mut query = new_query();
    let mut transport = Transport::new();
    query.visit(&mut transport, v4(1));
    let token = query.inflight_requests()[0];
    assert!(query.add_candidates(token, &mut transport, &vec![node(2)]));
    assert!(!query.add_candidates(token, &mut transport, &vec![node(3)]));
    assert_eq!(query.closest(&id_ending(0)), vec![node(2)]);
    assert!(query.is_done());
}
