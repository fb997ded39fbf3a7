//! Scenario tests for the router: feasibility, selection, retraction,
//! split-horizon and propagation triggers.

use mesh_routing::metric::Metric;
use mesh_routing::packet::{ControlPacket, ControlPacketType};
use mesh_routing::peer::Peer;
use mesh_routing::router::Router;
use mesh_routing::router_id::RouterId;
use mesh_routing::routing_table::{RouteEntry, RouteKey};
use mesh_routing::sequence_number::SeqNo;
use mesh_routing::source_table::SourceKey;
use mesh_routing::subnet::Subnet;

fn v4(a: u8, b: u8, c: u8, d: u8) -> u128 {
    (((a as u128) << 24 | (b as u128) << 16 | (c as u128) << 8 | d as u128) as u128) << 96
}

fn selected_for(router: &Router, subnet: Subnet) -> Vec<(RouteKey, RouteEntry)> {
    router
        .route_list()
        .into_iter()
        .filter(|(k, e)| k.subnet() == subnet && e.selected())
        .collect()
}

#[test]
fn first_feasible_advertisement_is_selected() {
    let mut router = Router::new();
    let subnet = Subnet::new(v4(10, 0, 0, 0), 8);
    let a = Peer::new(1);
    let changed = router.handle_update(subnet, RouterId::new(9), a, SeqNo::new(10), Metric::new(5));
    assert!(changed);
    let selected = selected_for(&router, subnet);
    assert_eq!(selected.len(), 1);
    assert_eq!(selected[0].0.neighbour().overlay_ip(), 1);
    assert_eq!(selected[0].1.metric().value, 5);
    let fd = router
        .feasibility_distance(SourceKey::new(subnet, RouterId::new(9)))
        .unwrap();
    assert_eq!((fd.0.value, fd.1.value), (10, 5));
}

#[test]
fn selection_exclusive_after_mixed_operations() {
    // However many advertisements, retractions and re-runs, at most one
    // entry per subnet is ever selected.
    let mut router = Router::new();
    let subnet = Subnet::new(v4(10, 0, 0, 0), 8);
    let origin = RouterId::new(9);
    for peer_addr in 1..5u128 {
        router.handle_update(
            subnet,
            origin,
            Peer::new(peer_addr),
            SeqNo::new(10),
            Metric::new(5 + peer_addr as u16),
        );
        let selected = selected_for(&router, subnet);
        assert!(selected.len() <= 1);
    }
    router.handle_retraction(subnet, Peer::new(1));
    assert!(selected_for(&router, subnet).len() <= 1);
    router.handle_update(subnet, origin, Peer::new(2), SeqNo::new(11), Metric::new(4));
    let selected = selected_for(&router, subnet);
    assert_eq!(selected.len(), 1);
    assert_eq!(selected[0].0.neighbour().overlay_ip(), 2);
}

#[test]
fn infeasible_lower_metric_is_stored_not_selected() {
    // An advertisement with a lower metric but an older seqno than the
    // recorded feasibility distance is kept visible but never selected.
    let mut router = Router::new();
    let subnet = Subnet::new(v4(10, 0, 0, 0), 8);
    let origin = RouterId::new(9);
    let a = Peer::new(1);
    let b = Peer::new(2);
    router.handle_update(subnet, origin, a, SeqNo::new(10), Metric::new(5));
    let changed = router.handle_update(subnet, origin, b, SeqNo::new(9), Metric::new(2));
    assert!(!changed);
    // The claim is stored ...
    let stored = router.get_route(&RouteKey::new(subnet, b)).unwrap();
    assert_eq!(stored.metric().value, 2);
    assert!(!stored.selected());
    // ... but the selected route is still the feasible one.
    let selected = selected_for(&router, subnet);
    assert_eq!(selected.len(), 1);
    assert_eq!(selected[0].0.neighbour().overlay_ip(), 1);
    assert_eq!(selected[0].1.metric().value, 5);
}

#[test]
fn retraction_promotes_feasible_sibling() {
    // A is selected at (seqno 10, metric 5); D advertises the same
    // distance and stays a feasible, unselected sibling. When A
    // retracts, D takes over and the feasibility distance is unchanged.
    let mut router = Router::new();
    let subnet = Subnet::new(v4(10, 0, 0, 0), 8);
    let origin = RouterId::new(9);
    let a = Peer::new(1);
    let d = Peer::new(4);
    router.handle_update(subnet, origin, a, SeqNo::new(10), Metric::new(5));
    let changed = router.handle_update(subnet, origin, d, SeqNo::new(10), Metric::new(5));
    // Tie on metric: the currently selected route is kept (flap damping).
    assert!(!changed);
    assert_eq!(selected_for(&router, subnet)[0].0.neighbour().overlay_ip(), 1);
    let changed = router.handle_retraction(subnet, a);
    assert!(changed);
    let selected = selected_for(&router, subnet);
    assert_eq!(selected.len(), 1);
    assert_eq!(selected[0].0.neighbour().overlay_ip(), 4);
    assert_eq!(selected[0].1.metric().value, 5);
    // The retracted entry stays visible with the infinite metric.
    assert!(router.get_route(&RouteKey::new(subnet, a)).unwrap().metric().is_infinite());
    // The feasibility distance did not move.
    let fd = router.feasibility_distance(SourceKey::new(subnet, origin)).unwrap();
    assert_eq!((fd.0.value, fd.1.value), (10, 5));
}

#[test]
fn retraction_without_sibling_leaves_no_route() {
    let mut router = Router::new();
    let subnet = Subnet::new(v4(10, 0, 0, 0), 8);
    let a = Peer::new(1);
    router.handle_update(subnet, RouterId::new(9), a, SeqNo::new(10), Metric::new(5));
    let changed = router.handle_retraction(subnet, a);
    assert!(changed);
    assert!(selected_for(&router, subnet).is_empty());
    assert!(router.lookup(v4(10, 1, 2, 3)).is_none());
}

#[test]
fn retraction_of_unknown_neighbour_is_a_noop() {
    let mut router = Router::new();
    let subnet = Subnet::new(v4(10, 0, 0, 0), 8);
    let changed = router.handle_retraction(subnet, Peer::new(42));
    assert!(!changed);
    assert!(router.route_list().is_empty());
}

#[test]
fn split_horizon_excludes_learned_from_peer() {
    // The triggered update for a route learned from A goes to B and C,
    // never back to A.
    let mut router = Router::new();
    let a = Peer::new(1);
    let b = Peer::new(2);
    let c = Peer::new(3);
    router.add_directly_connected_peer(a);
    router.add_directly_connected_peer(b);
    router.add_directly_connected_peer(c);
    let subnet = Subnet::new(v4(10, 0, 0, 0), 8);
    router.handle_update(subnet, RouterId::new(9), a, SeqNo::new(10), Metric::new(5));
    let messages = router.triggered_update(subnet, Metric::new(1));
    let mut targets: Vec<u128> = messages.iter().map(|(p, _)| p.overlay_ip()).collect();
    targets.sort();
    assert_eq!(targets, vec![2, 3]);
    for (_, packet) in &messages {
        assert_eq!(packet.message_type, ControlPacketType::Update);
        let body = packet.body.unwrap();
        assert_eq!(body.subnet, subnet);
        assert_eq!(body.router_id.value, 9);
        assert_eq!(body.seqno.value, 10);
        // The advertised metric includes this router's link cost.
        assert_eq!(body.metric.value, 6);
    }
}

#[test]
fn triggered_update_without_selected_route_is_empty() {
    let mut router = Router::new();
    router.add_directly_connected_peer(Peer::new(1));
    let subnet = Subnet::new(v4(10, 0, 0, 0), 8);
    assert!(router.triggered_update(subnet, Metric::new(1)).is_empty());
}

#[test]
fn retraction_update_reaches_every_peer() {
    let mut router = Router::new();
    router.add_directly_connected_peer(Peer::new(1));
    router.add_directly_connected_peer(Peer::new(2));
    let subnet = Subnet::new(v4(10, 0, 0, 0), 8);
    let messages = router.retraction_update(subnet, RouterId::new(9), SeqNo::new(10));
    assert_eq!(messages.len(), 2);
    for (i, (peer, packet)) in messages.iter().enumerate() {
        assert_eq!(peer.overlay_ip(), (i + 1) as u128);
        assert!(packet.body.unwrap().metric.is_infinite());
    }
}

#[test]
fn send_hello_reaches_every_peer() {
    let mut router = Router::new();
    router.add_directly_connected_peer(Peer::new(1));
    router.add_directly_connected_peer(Peer::new(2));
    router.add_directly_connected_peer(Peer::new(3));
    let messages: Vec<(Peer, ControlPacket)> = router.send_hello();
    assert_eq!(messages.len(), 3);
    for (i, (peer, packet)) in messages.iter().enumerate() {
        assert_eq!(peer.overlay_ip(), (i + 1) as u128);
        assert_eq!(packet.message_type, ControlPacketType::Hello);
        assert_eq!(packet.body_length, 0);
        assert!(packet.body.is_none());
    }
}

#[test]
fn peer_teardown_retracts_all_its_routes() {
    let mut router = Router::new();
    let a = Peer::new(1);
    let b = Peer::new(2);
    let net1 = Subnet::new(v4(10, 0, 0, 0), 8);
    let net2 = Subnet::new(v4(172, 16, 0, 0), 12);
    router.handle_update(net1, RouterId::new(9), a, SeqNo::new(10), Metric::new(5));
    router.handle_update(net2, RouterId::new(8), a, SeqNo::new(3), Metric::new(2));
    router.handle_update(net1, RouterId::new(9), b, SeqNo::new(10), Metric::new(5));
    router.retract_peer_routes(a);
    for (key, entry) in router.route_list() {
        if key.neighbour().overlay_ip() == 1 {
            assert!(entry.metric().is_infinite());
        } else {
            assert!(!entry.metric().is_infinite());
        }
    }
    // net1 fails over to b; net2 has no route left.
    assert_eq!(selected_for(&router, net1)[0].0.neighbour().overlay_ip(), 2);
    assert!(selected_for(&router, net2).is_empty());
}

#[test]
fn sweep_removes_only_retracted_entries() {
    let mut router = Router::new();
    let a = Peer::new(1);
    let b = Peer::new(2);
    let subnet = Subnet::new(v4(10, 0, 0, 0), 8);
    router.handle_update(subnet, RouterId::new(9), a, SeqNo::new(10), Metric::new(5));
    router.handle_update(subnet, RouterId::new(9), b, SeqNo::new(10), Metric::new(5));
    router.handle_retraction(subnet, a);
    assert_eq!(router.route_list().len(), 2);
    router.sweep_retracted();
    let remaining = router.route_list();
    assert_eq!(remaining.len(), 1);
    assert_eq!(remaining[0].0.neighbour().overlay_ip(), 2);
}

#[test]
fn prune_sources_drops_unreferenced_origins() {
    let mut router = Router::new();
    let a = Peer::new(1);
    let net1 = Subnet::new(v4(10, 0, 0, 0), 8);
    let net2 = Subnet::new(v4(172, 16, 0, 0), 12);
    router.handle_update(net1, RouterId::new(9), a, SeqNo::new(10), Metric::new(5));
    router.handle_update(net2, RouterId::new(8), a, SeqNo::new(3), Metric::new(2));
    router.handle_retraction(net1, a);
    router.sweep_retracted();
    router.prune_sources();
    assert!(router
        .feasibility_distance(SourceKey::new(net1, RouterId::new(9)))
        .is_none());
    assert!(router
        .feasibility_distance(SourceKey::new(net2, RouterId::new(8)))
        .is_some());
}

#[test]
fn lookup_follows_selection() {
    let mut router = Router::new();
    let wide = Subnet::new(v4(10, 0, 0, 0), 8);
    let narrow = Subnet::new(v4(10, 1, 0, 0), 16);
    let a = Peer::new(1);
    let b = Peer::new(2);
    router.handle_update(wide, RouterId::new(9), a, SeqNo::new(10), Metric::new(5));
    router.handle_update(narrow, RouterId::new(8), b, SeqNo::new(4), Metric::new(7));
    let hit = router.lookup(v4(10, 1, 2, 3)).unwrap();
    assert_eq!(hit.neighbour().overlay_ip(), 2);
    let hit = router.lookup(v4(10, 2, 2, 3)).unwrap();
    assert_eq!(hit.neighbour().overlay_ip(), 1);
}
