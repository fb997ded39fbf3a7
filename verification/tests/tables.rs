//! Tests for the leaf types, the routing table and the source table.

use mesh_routing::metric::{Metric, INFINITE_METRIC};
use mesh_routing::peer::Peer;
use mesh_routing::router_id::RouterId;
use mesh_routing::routing_table::{RouteEntry, RouteKey, RoutingTable};
use mesh_routing::sequence_number::SeqNo;
use mesh_routing::source_table::{SourceKey, SourceTable};
use mesh_routing::subnet::Subnet;

fn v4(a: u8, b: u8, c: u8, d: u8) -> u128 {
    (((a as u128) << 24 | (b as u128) << 16 | (c as u128) << 8 | d as u128) as u128) << 96
}

fn entry(subnet: Subnet, origin: u64, neighbour: Peer, metric: u16, seqno: u16) -> RouteEntry {
    RouteEntry::new(
        SourceKey::new(subnet, RouterId::new(origin)),
        neighbour,
        Metric::new(metric),
        SeqNo::new(seqno),
        false,
    )
}

#[test]
fn seqno_wraparound_near_max_is_older() {
    // 65535 is older than 1: the comparison wraps around.
    assert!(SeqNo::new(1).newer_than(SeqNo::new(65535)));
    assert!(!SeqNo::new(65535).newer_than(SeqNo::new(1)));
}

#[test]
fn seqno_gap_of_half_range_is_ambiguous() {
    // A gap of exactly 32768 is the boundary: neither side is newer.
    assert!(!SeqNo::new(32768).newer_than(SeqNo::new(0)));
    assert!(!SeqNo::new(0).newer_than(SeqNo::new(32768)));
    // One below and one above the boundary decide cleanly.
    assert!(SeqNo::new(32767).newer_than(SeqNo::new(0)));
    assert!(!SeqNo::new(0).newer_than(SeqNo::new(32767)));
    assert!(!SeqNo::new(32769).newer_than(SeqNo::new(0)));
    assert!(SeqNo::new(0).newer_than(SeqNo::new(32769)));
}

#[test]
fn seqno_equal_is_not_newer() {
    assert!(!SeqNo::new(7).newer_than(SeqNo::new(7)));
}

#[test]
fn metric_saturating_add_caps_at_infinite() {
    assert_eq!(Metric::new(5).saturating_add(Metric::new(3)).value, 8);
    assert_eq!(
        Metric::new(65000).saturating_add(Metric::new(60000)).value,
        INFINITE_METRIC
    );
    assert!(Metric::new(65534).saturating_add(Metric::new(1)).is_infinite());
    assert!(Metric::infinity().saturating_add(Metric::new(0)).is_infinite());
}

#[test]
fn subnet_contains_checks_prefix_bits() {
    let net = Subnet::new(v4(10, 0, 0, 0), 8);
    assert!(net.contains_ip(v4(10, 1, 2, 3)));
    assert!(!net.contains_ip(v4(11, 1, 2, 3)));
    let all = Subnet::new(0, 0);
    assert!(all.contains_ip(v4(192, 168, 0, 1)));
}

#[test]
fn insert_twice_leaves_one_entry() {
    // Uniqueness: the second insert for the same key replaces the first.
    let mut table = RoutingTable::new();
    let subnet = Subnet::new(v4(10, 0, 0, 0), 8);
    let neighbour = Peer::new(1);
    let key = RouteKey::new(subnet, neighbour);
    table.insert(key, entry(subnet, 1, neighbour, 5, 10));
    table.insert(key, entry(subnet, 1, neighbour, 9, 11));
    assert_eq!(table.len(), 1);
    let got = table.get(&key).unwrap();
    assert_eq!(got.metric.value, 9);
    assert_eq!(got.seqno.value, 11);
}

#[test]
fn get_mut_edits_in_place() {
    let mut table = RoutingTable::new();
    let subnet = Subnet::new(v4(10, 0, 0, 0), 8);
    let neighbour = Peer::new(1);
    let key = RouteKey::new(subnet, neighbour);
    table.insert(key, entry(subnet, 1, neighbour, 5, 10));
    {
        let e = table.get_mut(&key).unwrap();
        e.update_metric(Metric::new(7));
        e.update_seqno(SeqNo::new(12));
        e.update_router_id(RouterId::new(2));
    }
    let got = table.get(&key).unwrap();
    assert_eq!(got.metric().value, 7);
    assert_eq!(got.seqno.value, 12);
    assert_eq!(got.source().router_id.value, 2);
    assert!(table.get_mut(&RouteKey::new(subnet, Peer::new(9))).is_none());
}

#[test]
fn remove_returns_the_entry() {
    let mut table = RoutingTable::new();
    let subnet = Subnet::new(v4(10, 0, 0, 0), 8);
    let neighbour = Peer::new(1);
    let key = RouteKey::new(subnet, neighbour);
    assert!(table.remove(&key).is_none());
    table.insert(key, entry(subnet, 1, neighbour, 5, 10));
    let removed = table.remove(&key).unwrap();
    assert_eq!(removed.metric.value, 5);
    assert!(!table.contains_key(&key));
    assert_eq!(table.len(), 0);
}

#[test]
fn lookup_prefers_longest_selected_prefix() {
    // 10.0.0.0/8 and 10.1.0.0/16 both selected with different neighbours.
    let mut table = RoutingTable::new();
    let wide = Subnet::new(v4(10, 0, 0, 0), 8);
    let narrow = Subnet::new(v4(10, 1, 0, 0), 16);
    let a = Peer::new(1);
    let b = Peer::new(2);
    let mut wide_entry = entry(wide, 1, a, 5, 10);
    wide_entry.set_selected(true);
    let mut narrow_entry = entry(narrow, 2, b, 7, 10);
    narrow_entry.set_selected(true);
    table.insert(RouteKey::new(wide, a), wide_entry);
    table.insert(RouteKey::new(narrow, b), narrow_entry);
    let hit = table.lookup(v4(10, 1, 2, 3)).unwrap();
    assert_eq!(hit.neighbour().overlay_ip(), 2);
    let miss_narrow = table.lookup(v4(10, 2, 2, 3)).unwrap();
    assert_eq!(miss_narrow.neighbour().overlay_ip(), 1);
    assert!(table.lookup(v4(11, 0, 0, 1)).is_none());
}

#[test]
fn lookup_ignores_unselected_entries() {
    let mut table = RoutingTable::new();
    let subnet = Subnet::new(v4(10, 0, 0, 0), 8);
    let neighbour = Peer::new(1);
    table.insert(RouteKey::new(subnet, neighbour), entry(subnet, 1, neighbour, 5, 10));
    assert!(table.lookup(v4(10, 1, 2, 3)).is_none());
}

#[test]
fn retain_drops_rejected_entries() {
    let mut table = RoutingTable::new();
    let subnet = Subnet::new(v4(10, 0, 0, 0), 8);
    let a = Peer::new(1);
    let b = Peer::new(2);
    table.insert(RouteKey::new(subnet, a), entry(subnet, 1, a, 5, 10));
    table.insert(RouteKey::new(subnet, b), entry(subnet, 1, b, 7, 10));
    table.retain(|k: RouteKey, _e: RouteEntry| k.neighbor.address != 1);
    assert_eq!(table.len(), 1);
    assert!(!table.contains_key(&RouteKey::new(subnet, a)));
    assert!(table.contains_key(&RouteKey::new(subnet, b)));
}

#[test]
fn source_table_records_only_improvements() {
    let mut sources = SourceTable::new();
    let subnet = Subnet::new(v4(10, 0, 0, 0), 8);
    let origin = SourceKey::new(subnet, RouterId::new(1));
    // First advertisement is always recorded.
    assert!(sources.update(origin, SeqNo::new(10), Metric::new(5)));
    assert_eq!(sources.feasibility_distance(origin).unwrap().1.value, 5);
    // A worse metric at the same seqno is not.
    assert!(!sources.update(origin, SeqNo::new(10), Metric::new(9)));
    assert_eq!(sources.feasibility_distance(origin).unwrap().1.value, 5);
    // A better metric at the same seqno is.
    assert!(sources.update(origin, SeqNo::new(10), Metric::new(3)));
    assert_eq!(sources.feasibility_distance(origin).unwrap().1.value, 3);
    // A newer seqno is, whatever the metric.
    assert!(sources.update(origin, SeqNo::new(11), Metric::new(8)));
    let (seqno, metric) = sources.feasibility_distance(origin).unwrap();
    assert_eq!(seqno.value, 11);
    assert_eq!(metric.value, 8);
    // An older seqno is not.
    assert!(!sources.update(origin, SeqNo::new(10), Metric::new(1)));
    assert_eq!(sources.feasibility_distance(origin).unwrap().0.value, 11);
}

#[test]
fn source_table_retraction_never_recorded() {
    // A retraction (infinite metric) does not lower the feasibility
    // distance, even under a newer seqno.
    let mut sources = SourceTable::new();
    let subnet = Subnet::new(v4(10, 0, 0, 0), 8);
    let origin = SourceKey::new(subnet, RouterId::new(1));
    assert!(!sources.update(origin, SeqNo::new(10), Metric::infinity()));
    assert!(sources.feasibility_distance(origin).is_none());
    assert!(sources.update(origin, SeqNo::new(10), Metric::new(5)));
    assert!(!sources.update(origin, SeqNo::new(11), Metric::infinity()));
    let (seqno, metric) = sources.feasibility_distance(origin).unwrap();
    assert_eq!(seqno.value, 10);
    assert_eq!(metric.value, 5);
}

#[test]
fn source_table_prune_keeps_accepted_sources() {
    let mut sources = SourceTable::new();
    let subnet = Subnet::new(v4(10, 0, 0, 0), 8);
    let keep = SourceKey::new(subnet, RouterId::new(1));
    let drop = SourceKey::new(subnet, RouterId::new(2));
    assert!(sources.update(keep, SeqNo::new(1), Metric::new(4)));
    assert!(sources.update(drop, SeqNo::new(1), Metric::new(4)));
    sources.prune(|k: SourceKey| k.router_id.value == 1);
    assert!(sources.feasibility_distance(keep).is_some());
    assert!(sources.feasibility_distance(drop).is_none());
}

#[test]
fn route_key_orders_by_subnet_then_neighbour() {
    let wide = Subnet::new(v4(10, 0, 0, 0), 8);
    let narrow = Subnet::new(v4(10, 0, 0, 0), 16);
    let a = RouteKey::new(wide, Peer::new(1));
    let b = RouteKey::new(wide, Peer::new(2));
    let c = RouteKey::new(narrow, Peer::new(1));
    assert!(a < b);
    assert!(a < c);
    assert!(b > a);
    assert!(a <= a);
}
