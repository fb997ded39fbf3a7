//! The router: route ingestion, feasibility, selection and propagation.
//!
//! The router owns the routing table and the source table, validates each
//! inbound advertisement against the feasibility condition, re-runs route
//! selection for the affected subnet, and decides which directly-connected
//! peers must receive outbound control packets. Actually transmitting a
//! packet is the transport layer's concern: every send decision is handed
//! back as a list of (peer, packet) pairs.

use vstd::prelude::*;
use crate::metric::{Metric, INFINITE_METRIC};
use crate::packet::{ControlPacket, ControlPacketType, UpdateBody};
use crate::peer::Peer;
use crate::router_id::RouterId;
use crate::routing_table::{RouteEntry, RouteKey, RoutingTable};
use crate::sequence_number::SeqNo;
use crate::source_table::{feasible, feasible_for_selection, SourceKey, SourceTable};
use crate::subnet::Subnet;

verus! {

/// Every entry agrees with its key: the entry's advertising neighbour is
/// the key's neighbour, and the entry's origin is an origin for the key's
/// subnet.
pub open spec fn entries_consistent(m: Map<RouteKey, RouteEntry>) -> bool {
    forall|k: RouteKey|
        #[trigger] m.contains_key(k) ==> m[k].neighbor == k.neighbor && m[k].source.subnet
            == k.subnet
}

/// For every subnet, at most one entry is selected.
pub open spec fn selected_exclusive(m: Map<RouteKey, RouteEntry>) -> bool {
    forall|k1: RouteKey, k2: RouteKey|
        #![trigger m.contains_key(k1), m.contains_key(k2)]
        m.contains_key(k1) && m.contains_key(k2) && k1 != k2 && k1.subnet == k2.subnet ==> !(
        m[k1].selected && m[k2].selected)
}

/// `k` is the selected entry for `subnet` in `m`.
pub open spec fn has_selected(m: Map<RouteKey, RouteEntry>, subnet: Subnet, k: RouteKey) -> bool {
    m.contains_key(k) && k.subnet == subnet && m[k].selected
}

/// `k` may be selected for `subnet`: its entry is present, not retracted,
/// and passes the selection-time feasibility condition against the
/// recorded feasibility distances `st`.
pub open spec fn candidate(
    st: Map<SourceKey, (SeqNo, Metric)>,
    m: Map<RouteKey, RouteEntry>,
    k: RouteKey,
    subnet: Subnet,
) -> bool {
    m.contains_key(k) && k.subnet == subnet && !m[k].metric.infinite() && feasible_for_selection(
        st,
        m[k].source,
        m[k].seqno,
        m[k].metric,
    )
}

/// Selection preference: lowest metric first; on a metric tie prefer the
/// entry that is currently selected (route-flap damping); on a full tie
/// prefer the lower neighbour address, for determinism. `preferred` says
/// that `(ka, ea)` is at least as good as `(kb, eb)`.
pub open spec fn preferred(ka: RouteKey, ea: RouteEntry, kb: RouteKey, eb: RouteEntry) -> bool {
    ||| ea.metric.value < eb.metric.value
    ||| (ea.metric.value == eb.metric.value && ea.selected && !eb.selected)
    ||| (ea.metric.value == eb.metric.value && ea.selected == eb.selected
        && ka.neighbor.address <= kb.neighbor.address)
}

/// The two entries carry the same advertisement; only the selected flag
/// may differ.
pub open spec fn same_route(a: RouteEntry, b: RouteEntry) -> bool {
    a.source == b.source && a.neighbor == b.neighbor && a.metric == b.metric && a.seqno == b.seqno
}

/// The selected route for `subnet` is the same in both tables: the same
/// entry (if any) is selected, at the same metric. When this fails the
/// forwarding decision for `subnet` changed and peers must hear about it.
pub open spec fn same_selection(
    m1: Map<RouteKey, RouteEntry>,
    m2: Map<RouteKey, RouteEntry>,
    subnet: Subnet,
) -> bool {
    forall|k: RouteKey|
        #![trigger has_selected(m1, subnet, k)]
        #![trigger has_selected(m2, subnet, k)]
        (has_selected(m1, subnet, k) <==> has_selected(m2, subnet, k)) && (has_selected(
            m1,
            subnet,
            k,
        ) ==> m1[k].metric == m2[k].metric)
}

/// The metric this router advertises for a selected entry: the entry's
/// metric plus the router's own link cost to the advertising neighbour,
/// saturating at the infinite sentinel.
pub open spec fn advertised_metric_value(m: Metric, link_cost: Metric) -> u16 {
    if m.value + link_cost.value >= INFINITE_METRIC {
        INFINITE_METRIC
    } else {
        (m.value + link_cost.value) as u16
    }
}

/// The outbound advertisement built from a selected entry: the origin
/// and seqno as recorded, and the metric as seen by this router.
pub open spec fn advertised_packet(e: RouteEntry, subnet: Subnet, link_cost: Metric) -> ControlPacket {
    ControlPacket {
        message_type: ControlPacketType::Update,
        body_length: 0,
        body: Some(
            UpdateBody {
                subnet,
                router_id: e.source.router_id,
                seqno: e.seqno,
                metric: Metric { value: advertised_metric_value(e.metric, link_cost) },
            },
        ),
    }
}

/// Seq-level candidate test used while scanning the table: the pair at
/// `j` is about `subnet`, not retracted, and feasible against `st`.
spec fn cand_at(
    s: Seq<(RouteKey, RouteEntry)>,
    st: Map<SourceKey, (SeqNo, Metric)>,
    j: int,
    subnet: Subnet,
) -> bool {
    &&& 0 <= j < s.len()
    &&& s[j].0.subnet == subnet
    &&& !s[j].1.metric.infinite()
    &&& feasible_for_selection(st, s[j].1.source, s[j].1.seqno, s[j].1.metric)
}

/// Seq-level preference between two scan positions.
spec fn pref_at(s: Seq<(RouteKey, RouteEntry)>, a: int, b: int) -> bool {
    preferred(s[a].0, s[a].1, s[b].0, s[b].1)
}

/// Whether position `j` is the winner the scan settled on.
spec fn sel_flag(best: Option<usize>, j: int) -> bool {
    match best {
        Some(b) => b == j,
        None => false,
    }
}

/// Orchestrates route ingestion, selection, retraction and outbound
/// advertisement across the directly-connected peers.
pub struct Router {
    table: RoutingTable,
    sources: SourceTable,
    directly_connected_peers: Vec<Peer>,
}

impl Router {
    /// The routes the router knows, one entry per (subnet, neighbour).
    pub closed spec fn routes(self) -> Map<RouteKey, RouteEntry> {
        self.table@
    }

    /// The feasibility distances recorded per origin.
    pub closed spec fn feasibility(self) -> Map<SourceKey, (SeqNo, Metric)> {
        self.sources@
    }

    /// The directly-connected peers, in registration order.
    pub closed spec fn peers(self) -> Seq<Peer> {
        self.directly_connected_peers@
    }

    /// Router invariant: both tables are well formed, every entry agrees
    /// with its key, and for every subnet at most one entry is selected.
    pub closed spec fn wf(self) -> bool {
        &&& self.table.wf()
        &&& self.sources.wf()
        &&& entries_consistent(self.table@)
        &&& selected_exclusive(self.table@)
    }

    /// Selection exclusivity: a well-formed router never has two selected
    /// entries for one subnet, whatever sequence of updates, retractions
    /// and removals produced its state.
    pub proof fn lemma_selected_exclusive(self)
        requires
            self.wf(),
        ensures
            selected_exclusive(self.routes()),
            entries_consistent(self.routes()),
    {
    }

    pub fn new() -> (r: Router)
        ensures
            r.wf(),
            r.routes() == Map::<RouteKey, RouteEntry>::empty(),
            r.feasibility() == Map::<SourceKey, (SeqNo, Metric)>::empty(),
            r.peers() == Seq::<Peer>::empty(),
    {
        Router {
            table: RoutingTable::new(),
            sources: SourceTable::new(),
            directly_connected_peers: Vec::new(),
        }
    }

    /// Register a peer as an immediate neighbour. No route state is
    /// created until its first advertisement arrives.
    pub fn add_directly_connected_peer(&mut self, peer: Peer)
        requires
            old(self).wf(),
        ensures
            final(self).wf(),
            final(self).peers() == old(self).peers().push(peer),
            final(self).routes() == old(self).routes(),
            final(self).feasibility() == old(self).feasibility(),
    {
        self.directly_connected_peers.push(peer);
    }

    /// Build the zero-body Hello for every directly-connected peer: one
    /// copy per peer, used for liveness and neighbour discovery. No table
    /// state changes; the caller performs the sends.
    pub fn send_hello(&self) -> (r: Vec<(Peer, ControlPacket)>)
        ensures
            r@.len() == self.peers().len(),
            forall|i: int|
                0 <= i < r@.len() ==> (#[trigger] r@[i]).0 == self.peers()[i]
                    && r@[i].1.message_type == ControlPacketType::Hello && r@[i].1.body_length == 0
                    && r@[i].1.body is None,
    {
        let hello_message = ControlPacket::hello();
        let mut r: Vec<(Peer, ControlPacket)> = Vec::new();
        let mut i: usize = 0;
        while i < self.directly_connected_peers.len()
            invariant
                i <= self.peers().len(),
                r@.len() == i,
                hello_message.message_type == ControlPacketType::Hello,
                hello_message.body_length == 0,
                hello_message.body is None,
                forall|j: int|
                    0 <= j < i ==> (#[trigger] r@[j]).0 == self.peers()[j] && r@[j].1
                        == hello_message,
            decreases self.peers().len() - i,
        {
            r.push((self.directly_connected_peers[i], hello_message));
            i = i + 1;
        }
        r
    }

    /// Point access to one advertisement.
    pub fn get_route(&self, key: &RouteKey) -> (r: Option<RouteEntry>)
        requires
            self.wf(),
        ensures
            match r {
                Some(e) => self.routes().contains_key(*key) && e == self.routes()[*key],
                None => !self.routes().contains_key(*key),
            },
    {
        self.table.get(key)
    }

    /// The forwarding plane's sole read interface: longest-prefix match
    /// among selected entries.
    pub fn lookup(&self, ip: u128) -> (r: Option<RouteEntry>)
        requires
            self.wf(),
        ensures
            match r {
                Some(e) => exists|k: RouteKey|
                    {
                        &&& #[trigger] self.routes().contains_key(k)
                        &&& self.routes()[k] == e
                        &&& e.selected
                        &&& k.subnet.contains(ip)
                        &&& forall|k2: RouteKey|
                            #[trigger] self.routes().contains_key(k2) && self.routes()[k2].selected
                                && k2.subnet.contains(ip) ==> k2.subnet.prefix_len
                                <= k.subnet.prefix_len
                    },
                None => forall|k: RouteKey|
                    #[trigger] self.routes().contains_key(k) ==> !(self.routes()[k].selected
                        && k.subnet.contains(ip)),
            },
    {
        let r = self.table.lookup(ip);
        proof {
            if let Some(e) = r {
                let k = choose|k: RouteKey|
                    {
                        &&& #[trigger] self.table@.contains_key(k)
                        &&& self.table@[k] == e
                        &&& e.selected
                        &&& k.subnet.contains(ip)
                        &&& forall|k2: RouteKey|
                            #[trigger] self.table@.contains_key(k2) && self.table@[k2].selected
                                && k2.subnet.contains(ip) ==> k2.subnet.prefix_len
                                <= k.subnet.prefix_len
                    };
                assert(self.routes().contains_key(k) && self.routes()[k] == e);
            }
        }
        r
    }

    /// Re-run route selection for one subnet: among its entries that are
    /// feasible and not retracted, mark exactly the preferred one
    /// selected and all its siblings unselected. If no such entry exists
    /// the subnet ends up with no selected route. Entries of other
    /// subnets are untouched.
    fn re_select(&mut self, subnet: Subnet)
        requires
            old(self).table.wf(),
            old(self).sources.wf(),
            entries_consistent(old(self).table@),
            forall|k1: RouteKey, k2: RouteKey|
                #![trigger old(self).table@.contains_key(k1), old(self).table@.contains_key(k2)]
                old(self).table@.contains_key(k1) && old(self).table@.contains_key(k2) && k1 != k2
                    && k1.subnet == k2.subnet && k1.subnet != subnet ==> !(old(
                self,
                ).table@[k1].selected && old(self).table@[k2].selected),
        ensures
            final(self).table.wf(),
            final(self).sources == old(self).sources,
            final(self).directly_connected_peers == old(self).directly_connected_peers,
            entries_consistent(final(self).table@),
            selected_exclusive(final(self).table@),
            final(self).table@.dom() == old(self).table@.dom(),
            forall|k: RouteKey|
                #[trigger] old(self).table@.contains_key(k) ==> same_route(
                    final(self).table@[k],
                    old(self).table@[k],
                ) && (k.subnet != subnet ==> final(self).table@[k] == old(self).table@[k]),
            forall|k: RouteKey|
                #[trigger] has_selected(final(self).table@, subnet, k) ==> candidate(
                    old(self).sources@,
                    old(self).table@,
                    k,
                    subnet,
                ) && (forall|k2: RouteKey|
                    #[trigger] candidate(old(self).sources@, old(self).table@, k2, subnet)
                        ==> preferred(k, old(self).table@[k], k2, old(self).table@[k2])),
            (exists|k: RouteKey|
                #[trigger] candidate(old(self).sources@, old(self).table@, k, subnet)) ==> (
            exists|k: RouteKey| #[trigger] has_selected(final(self).table@, subnet, k)),
    {
        let ghost s0 = self.table.seq();
        let ghost st = self.sources@;
        proof {
            self.table.lemma_view();
        }
        let n = self.table.len();
        let mut best: Option<usize> = None;
        let mut i: usize = 0;
        while i < n
            invariant
                *self == *old(self),
                s0 == self.table.seq(),
                st == self.sources@,
                self.table.wf(),
                self.sources.wf(),
                n == s0.len(),
                i <= n,
                match best {
                    Some(b) => b < i && cand_at(s0, st, b as int, subnet) && (forall|j: int|
                        0 <= j < i && cand_at(s0, st, j, subnet) ==> pref_at(s0, b as int, j)),
                    None => forall|j: int| 0 <= j < i ==> !cand_at(s0, st, j, subnet),
                },
            decreases n - i,
        {
            let (k, e) = self.table.entry_at(i);
            let is_cand = if k.subnet == subnet && !e.metric.is_infinite() {
                self.sources.is_feasible_for_selection(e.source, e.seqno, e.metric)
            } else {
                false
            };
            if is_cand {
                assert(cand_at(s0, st, i as int, subnet));
                match best {
                    None => {
                        best = Some(i);
                    },
                    Some(b) => {
                        let (bk, be) = self.table.entry_at(b);
                        let better = e.metric.value < be.metric.value || (e.metric.value
                            == be.metric.value && e.selected && !be.selected) || (e.metric.value
                            == be.metric.value && (e.selected == be.selected)
                            && k.neighbor.address < bk.neighbor.address);
                        if better {
                            proof {
                                assert forall|j: int|
                                    0 <= j < i + 1 && cand_at(s0, st, j, subnet) implies pref_at(
                                    s0,
                                    i as int,
                                    j,
                                ) by {
                                    if j < i {
                                        assert(pref_at(s0, b as int, j));
                                    }
                                }
                            }
                            best = Some(i);
                        } else {
                            assert(pref_at(s0, b as int, i as int));
                        }
                    },
                }
            }
            i = i + 1;
        }
        let mut i2: usize = 0;
        while i2 < n
            invariant
                self.table.wf(),
                self.sources == old(self).sources,
                self.directly_connected_peers == old(self).directly_connected_peers,
                st == self.sources@,
                n == s0.len(),
                self.table.seq().len() == n,
                i2 <= n,
                match best {
                    Some(b) => b < n && cand_at(s0, st, b as int, subnet) && (forall|j: int|
                        0 <= j < n && cand_at(s0, st, j, subnet) ==> pref_at(s0, b as int, j)),
                    None => forall|j: int| 0 <= j < n ==> !cand_at(s0, st, j, subnet),
                },
                forall|j: int|
                    0 <= j < n ==> (#[trigger] self.table.seq()[j]).0 == s0[j].0,
                forall|j: int| i2 <= j < n ==> #[trigger] self.table.seq()[j] == s0[j],
                forall|j: int|
                    0 <= j < i2 && (#[trigger] s0[j]).0.subnet != subnet ==> self.table.seq()[j]
                        == s0[j],
                forall|j: int|
                    0 <= j < i2 && (#[trigger] s0[j]).0.subnet == subnet ==> self.table.seq()[j].1
                        == (RouteEntry { selected: sel_flag(best, j), ..s0[j].1 }),
            decreases n - i2,
        {
            let (k, e) = self.table.entry_at(i2);
            if k.subnet == subnet {
                let sel = match best {
                    Some(b) => b == i2,
                    None => false,
                };
                self.table.update_entry_at(i2, RouteEntry { selected: sel, ..e });
            }
            i2 = i2 + 1;
        }
        proof {
            let m0 = old(self).table@;
            let m1 = self.table@;
            let s1 = self.table.seq();
            old(self).table.lemma_view();
            self.table.lemma_view();
            assert forall|k: RouteKey| m1.contains_key(k) <==> m0.contains_key(k) by {
                if m1.contains_key(k) {
                    let j = choose|j: int| 0 <= j < s1.len() && (#[trigger] s1[j]).0 == k;
                    assert(s0[j].0 == k);
                }
                if m0.contains_key(k) {
                    let j = choose|j: int| 0 <= j < s0.len() && (#[trigger] s0[j]).0 == k;
                    assert(s1[j].0 == k);
                }
            }
            assert(m1.dom() =~= m0.dom());
            assert forall|k: RouteKey| #[trigger] m0.contains_key(k) implies same_route(
                m1[k],
                m0[k],
            ) && (k.subnet != subnet ==> m1[k] == m0[k]) by {
                let j = choose|j: int| 0 <= j < s0.len() && (#[trigger] s0[j]).0 == k;
                assert(m0[k] == s0[j].1);
                assert(s1[j].0 == k);
                assert(m1[k] == s1[j].1);
            }
            assert forall|k: RouteKey| #[trigger] has_selected(m1, subnet, k) implies candidate(
                st,
                m0,
                k,
                subnet,
            ) && (forall|k2: RouteKey|
                #[trigger] candidate(st, m0, k2, subnet) ==> preferred(
                    k,
                    m0[k],
                    k2,
                    m0[k2],
                )) by {
                let j = choose|j: int| 0 <= j < s1.len() && (#[trigger] s1[j]).0 == k;
                assert(s0[j].0 == k);
                assert(m1[k] == s1[j].1);
                assert(m0[k] == s0[j].1);
                assert(sel_flag(best, j));
                assert(cand_at(s0, st, j, subnet));
                assert forall|k2: RouteKey| #[trigger] candidate(st, m0, k2, subnet) implies
                    preferred(k, m0[k], k2, m0[k2]) by {
                    let j2 = choose|j2: int| 0 <= j2 < s0.len() && (#[trigger] s0[j2]).0 == k2;
                    assert(m0[k2] == s0[j2].1);
                    assert(cand_at(s0, st, j2, subnet));
                    assert(pref_at(s0, j, j2));
                }
            }
            if exists|k: RouteKey| #[trigger] candidate(st, m0, k, subnet) {
                let k = choose|k: RouteKey| #[trigger] candidate(st, m0, k, subnet);
                let j = choose|j: int| 0 <= j < s0.len() && (#[trigger] s0[j]).0 == k;
                assert(m0[k] == s0[j].1);
                assert(cand_at(s0, st, j, subnet));
                match best {
                    Some(b) => {
                        let bk = s0[b as int].0;
                        assert(s1[b as int].0 == bk);
                        assert(s1[b as int].1.selected);
                        assert(m1[bk] == s1[b as int].1);
                        assert(has_selected(m1, subnet, bk));
                    },
                    None => {
                        assert(false);
                    },
                }
            }
            assert forall|k1: RouteKey, k2: RouteKey|
                m1.contains_key(k1) && m1.contains_key(k2) && k1 != k2 && k1.subnet
                    == k2.subnet implies !(m1[k1].selected && m1[k2].selected) by {
                let j1 = choose|j: int| 0 <= j < s1.len() && (#[trigger] s1[j]).0 == k1;
                let j2 = choose|j: int| 0 <= j < s1.len() && (#[trigger] s1[j]).0 == k2;
                assert(j1 != j2);
                assert(m1[k1] == s1[j1].1 && m1[k2] == s1[j2].1);
                assert(s0[j1].0 == k1 && s0[j2].0 == k2);
                if k1.subnet == subnet {
                    if m1[k1].selected && m1[k2].selected {
                        assert(sel_flag(best, j1) && sel_flag(best, j2));
                    }
                } else {
                    assert(m1[k1] == s0[j1].1 && m1[k2] == s0[j2].1);
                    assert(m0.contains_key(k1) && m0.contains_key(k2));
                    assert(m0[k1] == s0[j1].1 && m0[k2] == s0[j2].1);
                }
            }
        }
    }

    /// The unique selected route for `subnet`, as (key, metric), if any.
    fn selected_route_for(&self, subnet: Subnet) -> (r: Option<(RouteKey, Metric)>)
        requires
            self.table.wf(),
            selected_exclusive(self.table@),
        ensures
            match r {
                Some(p) => has_selected(self.table@, subnet, p.0) && p.1 == self.table@[p.0].metric
                    && (forall|k2: RouteKey|
                    #[trigger] has_selected(self.table@, subnet, k2) ==> k2 == p.0),
                None => forall|k: RouteKey| !(#[trigger] has_selected(self.table@, subnet, k)),
            },
    {
        proof {
            self.table.lemma_view();
        }
        let n = self.table.len();
        let mut i: usize = 0;
        while i < n
            invariant
                self.table.wf(),
                selected_exclusive(self.table@),
                n == self.table.seq().len(),
                i <= n,
                forall|j: int|
                    0 <= j < i ==> !((#[trigger] self.table.seq()[j]).0.subnet == subnet
                        && self.table.seq()[j].1.selected),
            decreases n - i,
        {
            let (k, e) = self.table.entry_at(i);
            if k.subnet == subnet && e.selected {
                proof {
                    self.table.lemma_view();
                    assert(self.table@.contains_key(k) && self.table@[k] == e);
                    assert forall|k2: RouteKey|
                        #[trigger] has_selected(self.table@, subnet, k2) implies k2 == k by {
                        if k2 != k {
                            assert(self.table@.contains_key(k2) && self.table@.contains_key(k));
                        }
                    }
                }
                return Some((k, e.metric));
            }
            i = i + 1;
        }
        proof {
            assert forall|k: RouteKey| !(#[trigger] has_selected(self.table@, subnet, k)) by {
                if self.table@.contains_key(k) {
                    let j = choose|j: int|
                        0 <= j < self.table.seq().len() && (#[trigger] self.table.seq()[j]).0 == k;
                    assert(self.table@[k] == self.table.seq()[j].1);
                }
            }
        }
        None
    }

    /// Ingest one route advertisement `(subnet, origin, neighbour,
    /// seqno, metric)`: check it against the feasibility condition,
    /// record a feasible finite distance in the source table, upsert the
    /// routing table entry for (subnet, neighbour), and re-run selection
    /// for the subnet. Infeasible advertisements are recorded but never
    /// selected. Returns whether the selected route for the subnet
    /// changed — the trigger for sending updates to peers.
    pub fn handle_update(
        &mut self,
        subnet: Subnet,
        router_id: RouterId,
        neighbour: Peer,
        seqno: SeqNo,
        metric: Metric,
    ) -> (changed: bool)
        requires
            old(self).wf(),
            subnet.wf(),
        ensures
            final(self).wf(),
            final(self).peers() == old(self).peers(),
            final(self).feasibility() == (if !metric.infinite() && feasible(
                old(self).feasibility(),
                (SourceKey { subnet, router_id }),
                seqno,
                metric,
            ) {
                old(self).feasibility().insert((SourceKey { subnet, router_id }), (seqno, metric))
            } else {
                old(self).feasibility()
            }),
            final(self).routes().dom() == old(self).routes().dom().insert(
                (RouteKey { subnet, neighbor: neighbour }),
            ),
            final(self).routes().contains_key((RouteKey { subnet, neighbor: neighbour })),
            same_route(
                final(self).routes()[(RouteKey { subnet, neighbor: neighbour })],
                (RouteEntry {
                    source: SourceKey { subnet, router_id },
                    neighbor: neighbour,
                    metric,
                    seqno,
                    selected: false,
                }),
            ),
            forall|k: RouteKey|
                #[trigger] old(self).routes().contains_key(k) && k != (RouteKey {
                    subnet,
                    neighbor: neighbour,
                }) ==> final(self).routes().contains_key(k) && same_route(
                    final(self).routes()[k],
                    old(self).routes()[k],
                ) && (k.subnet != subnet ==> final(self).routes()[k] == old(self).routes()[k]),
            forall|k: RouteKey|
                #[trigger] has_selected(final(self).routes(), subnet, k) ==> candidate(
                    final(self).feasibility(),
                    final(self).routes(),
                    k,
                    subnet,
                ),
            forall|k: RouteKey, k2: RouteKey|
                #[trigger] has_selected(final(self).routes(), subnet, k) && #[trigger] candidate(
                    final(self).feasibility(),
                    final(self).routes(),
                    k2,
                    subnet,
                ) ==> final(self).routes()[k].metric.value <= final(self).routes()[k2].metric.value,
            (exists|k: RouteKey|
                #[trigger] candidate(
                    final(self).feasibility(),
                    final(self).routes(),
                    k,
                    subnet,
                )) ==> (exists|k: RouteKey|
                #[trigger] has_selected(final(self).routes(), subnet, k)),
            changed == !same_selection(old(self).routes(), final(self).routes(), subnet),
    {
        let source = SourceKey::new(subnet, router_id);
        let key = RouteKey::new(subnet, neighbour);
        let before = self.selected_route_for(subnet);
        self.sources.update(source, seqno, metric);
        let was_selected = match self.table.get(&key) {
            Some(e) => e.selected,
            None => false,
        };
        let entry = RouteEntry::new(source, neighbour, metric, seqno, was_selected);
        let ghost m0 = self.table@;
        self.table.insert(key, entry);
        proof {
            assert forall|k1: RouteKey, k2: RouteKey|
                #![trigger self.table@.contains_key(k1), self.table@.contains_key(k2)]
                self.table@.contains_key(k1) && self.table@.contains_key(k2) && k1 != k2
                    && k1.subnet == k2.subnet && k1.subnet != subnet implies !(
            self.table@[k1].selected && self.table@[k2].selected) by {
                assert(k1 != key && k2 != key);
                assert(m0.contains_key(k1) && m0.contains_key(k2));
            }
            assert(entries_consistent(self.table@));
        }
        self.re_select(subnet);
        let after = self.selected_route_for(subnet);
        proof {
            assert(self.table@.dom() =~= old(self).table@.dom().insert(key));
            assert forall|k: RouteKey|
                #[trigger] old(self).table@.contains_key(k) && k != key implies
                self.table@.contains_key(k) && same_route(
                self.table@[k],
                old(self).table@[k],
            ) && (k.subnet != subnet ==> self.table@[k] == old(self).table@[k]) by {
                assert(m0.insert(key, entry).contains_key(k));
                assert(m0.insert(key, entry)[k] == old(self).table@[k]);
                assert(same_route(self.table@[k], m0.insert(key, entry)[k]));
            }
            assert forall|k: RouteKey|
                #[trigger] has_selected(self.table@, subnet, k) implies candidate(
                self.sources@,
                self.table@,
                k,
                subnet,
            ) by {
                assert(candidate(self.sources@, m0.insert(key, entry), k, subnet));
                assert(self.table@.contains_key(k) && same_route(
                    self.table@[k],
                    m0.insert(key, entry)[k],
                ));
            }
            assert forall|k: RouteKey, k2: RouteKey|
                #[trigger] has_selected(self.table@, subnet, k) && #[trigger] candidate(
                    self.sources@,
                    self.table@,
                    k2,
                    subnet,
                ) implies self.table@[k].metric.value <= self.table@[k2].metric.value by {
                assert(same_route(self.table@[k2], m0.insert(key, entry)[k2]));
                assert(candidate(self.sources@, m0.insert(key, entry), k2, subnet));
                assert(preferred(
                    k,
                    m0.insert(key, entry)[k],
                    k2,
                    m0.insert(key, entry)[k2],
                ));
            }
            if exists|k: RouteKey| #[trigger] candidate(self.sources@, self.table@, k, subnet) {
                let k = choose|k: RouteKey|
                    #[trigger] candidate(self.sources@, self.table@, k, subnet);
                assert(same_route(self.table@[k], m0.insert(key, entry)[k]));
                assert(candidate(self.sources@, m0.insert(key, entry), k, subnet));
            }
        }
        let changed = match (before, after) {
            (None, None) => false,
            (Some(b), Some(a)) => !(b.0 == a.0 && b.1 == a.1),
            _ => true,
        };
        proof {
            let mo = old(self).table@;
            let mn = self.table@;
            match (before, after) {
                (None, None) => {
                    assert(same_selection(mo, mn, subnet));
                },
                (Some(b), Some(a)) => {
                    if b.0 == a.0 && b.1 == a.1 {
                        assert forall|k: RouteKey|
                            (has_selected(mo, subnet, k) <==> has_selected(mn, subnet, k)) && (
                            has_selected(mo, subnet, k) ==> mo[k].metric == mn[k].metric) by {
                            if has_selected(mo, subnet, k) {
                                assert(k == b.0);
                            }
                            if has_selected(mn, subnet, k) {
                                assert(k == a.0);
                            }
                        }
                        assert(same_selection(mo, mn, subnet));
                    } else {
                        if b.0 == a.0 {
                            assert(has_selected(mo, subnet, b.0));
                            assert(!same_selection(mo, mn, subnet));
                        } else {
                            assert(has_selected(mo, subnet, b.0));
                            if has_selected(mn, subnet, b.0) {
                                assert(b.0 == a.0);
                            }
                            assert(!same_selection(mo, mn, subnet));
                        }
                    }
                },
                (None, Some(a)) => {
                    assert(has_selected(mn, subnet, a.0));
                    assert(!has_selected(mo, subnet, a.0));
                    assert(!same_selection(mo, mn, subnet));
                },
                (Some(b), None) => {
                    assert(has_selected(mo, subnet, b.0));
                    assert(!has_selected(mn, subnet, b.0));
                    assert(!same_selection(mo, mn, subnet));
                },
            }
        }
        changed
    }

    /// Retract one advertisement: the route for `subnet` learned from
    /// `neighbour` becomes unreachable. Its entry keeps its place in the
    /// table with the infinite metric so the retraction itself can
    /// propagate, and selection re-runs for the subnet. Serves both an
    /// explicit withdrawal from the neighbour and an expiry timeout (an
    /// implicit retraction). The feasibility distances never change: a
    /// retraction does not improve them. An unknown (subnet, neighbour)
    /// pair is a no-op, not a failure. Returns whether the selected
    /// route for the subnet changed.
    pub fn handle_retraction(&mut self, subnet: Subnet, neighbour: Peer) -> (changed: bool)
        requires
            old(self).wf(),
            subnet.wf(),
        ensures
            final(self).wf(),
            final(self).peers() == old(self).peers(),
            final(self).feasibility() == old(self).feasibility(),
            final(self).routes().dom() == old(self).routes().dom(),
            !old(self).routes().contains_key((RouteKey { subnet, neighbor: neighbour }))
                ==> final(self).routes() == old(self).routes() && !changed,
            old(self).routes().contains_key((RouteKey { subnet, neighbor: neighbour }))
                ==> final(self).routes()[(RouteKey { subnet, neighbor: neighbour })].metric.infinite()
                && final(self).routes()[(RouteKey { subnet, neighbor: neighbour })].source
                    == old(self).routes()[(RouteKey { subnet, neighbor: neighbour })].source
                && final(self).routes()[(RouteKey { subnet, neighbor: neighbour })].seqno
                    == old(self).routes()[(RouteKey { subnet, neighbor: neighbour })].seqno,
            forall|k: RouteKey|
                #[trigger] old(self).routes().contains_key(k) && k != (RouteKey {
                    subnet,
                    neighbor: neighbour,
                }) ==> same_route(final(self).routes()[k], old(self).routes()[k]) && (k.subnet
                    != subnet ==> final(self).routes()[k] == old(self).routes()[k]),
            old(self).routes().contains_key((RouteKey { subnet, neighbor: neighbour })) ==> (
            forall|k: RouteKey|
                #[trigger] has_selected(final(self).routes(), subnet, k) ==> candidate(
                    final(self).feasibility(),
                    final(self).routes(),
                    k,
                    subnet,
                )),
            old(self).routes().contains_key((RouteKey { subnet, neighbor: neighbour })) ==> (
            forall|k: RouteKey, k2: RouteKey|
                #[trigger] has_selected(final(self).routes(), subnet, k) && #[trigger] candidate(
                    final(self).feasibility(),
                    final(self).routes(),
                    k2,
                    subnet,
                ) ==> final(self).routes()[k].metric.value
                    <= final(self).routes()[k2].metric.value),
            old(self).routes().contains_key((RouteKey { subnet, neighbor: neighbour })) ==> ((
            exists|k: RouteKey|
                #[trigger] candidate(
                    final(self).feasibility(),
                    final(self).routes(),
                    k,
                    subnet,
                )) ==> (exists|k: RouteKey|
                #[trigger] has_selected(final(self).routes(), subnet, k))),
            changed == !same_selection(old(self).routes(), final(self).routes(), subnet),
    {
        let key = RouteKey::new(subnet, neighbour);
        let entry = match self.table.get(&key) {
            None => {
                proof {
                    assert(same_selection(old(self).table@, self.table@, subnet));
                }
                return false;
            },
            Some(e) => e,
        };
        let before = self.selected_route_for(subnet);
        let retracted = RouteEntry::new(
            entry.source,
            entry.neighbor,
            Metric::infinity(),
            entry.seqno,
            entry.selected,
        );
        let ghost m0 = self.table@;
        self.table.insert(key, retracted);
        proof {
            assert forall|k1: RouteKey, k2: RouteKey|
                #![trigger self.table@.contains_key(k1), self.table@.contains_key(k2)]
                self.table@.contains_key(k1) && self.table@.contains_key(k2) && k1 != k2
                    && k1.subnet == k2.subnet && k1.subnet != subnet implies !(
            self.table@[k1].selected && self.table@[k2].selected) by {
                assert(k1 != key && k2 != key);
                assert(m0.contains_key(k1) && m0.contains_key(k2));
            }
            assert(entries_consistent(self.table@));
        }
        self.re_select(subnet);
        let after = self.selected_route_for(subnet);
        proof {
            assert(self.table@.dom() =~= old(self).table@.dom());
            assert forall|k: RouteKey|
                #[trigger] old(self).table@.contains_key(k) && k != key implies same_route(
                self.table@[k],
                old(self).table@[k],
            ) && (k.subnet != subnet ==> self.table@[k] == old(self).table@[k]) by {
                assert(m0.insert(key, retracted).contains_key(k));
                assert(m0.insert(key, retracted)[k] == old(self).table@[k]);
                assert(same_route(self.table@[k], m0.insert(key, retracted)[k]));
            }
            assert forall|k: RouteKey|
                #[trigger] has_selected(self.table@, subnet, k) implies candidate(
                self.sources@,
                self.table@,
                k,
                subnet,
            ) by {
                assert(candidate(self.sources@, m0.insert(key, retracted), k, subnet));
                assert(same_route(self.table@[k], m0.insert(key, retracted)[k]));
            }
            assert forall|k: RouteKey, k2: RouteKey|
                #[trigger] has_selected(self.table@, subnet, k) && #[trigger] candidate(
                    self.sources@,
                    self.table@,
                    k2,
                    subnet,
                ) implies self.table@[k].metric.value <= self.table@[k2].metric.value by {
                assert(same_route(self.table@[k2], m0.insert(key, retracted)[k2]));
                assert(candidate(self.sources@, m0.insert(key, retracted), k2, subnet));
                assert(preferred(
                    k,
                    m0.insert(key, retracted)[k],
                    k2,
                    m0.insert(key, retracted)[k2],
                ));
            }
            if exists|k: RouteKey| #[trigger] candidate(self.sources@, self.table@, k, subnet) {
                let k = choose|k: RouteKey|
                    #[trigger] candidate(self.sources@, self.table@, k, subnet);
                assert(same_route(self.table@[k], m0.insert(key, retracted)[k]));
                assert(candidate(self.sources@, m0.insert(key, retracted), k, subnet));
            }
        }
        let changed = match (before, after) {
            (None, None) => false,
            (Some(b), Some(a)) => !(b.0 == a.0 && b.1 == a.1),
            _ => true,
        };
        proof {
            let mo = old(self).table@;
            let mn = self.table@;
            match (before, after) {
                (None, None) => {
                    assert(same_selection(mo, mn, subnet));
                },
                (Some(b), Some(a)) => {
                    if b.0 == a.0 && b.1 == a.1 {
                        assert forall|k: RouteKey|
                            (has_selected(mo, subnet, k) <==> has_selected(mn, subnet, k)) && (
                            has_selected(mo, subnet, k) ==> mo[k].metric == mn[k].metric) by {
                            if has_selected(mo, subnet, k) {
                                assert(k == b.0);
                            }
                            if has_selected(mn, subnet, k) {
                                assert(k == a.0);
                            }
                        }
                        assert(same_selection(mo, mn, subnet));
                    } else {
                        if b.0 == a.0 {
                            assert(has_selected(mo, subnet, b.0));
                            assert(!same_selection(mo, mn, subnet));
                        } else {
                            assert(has_selected(mo, subnet, b.0));
                            if has_selected(mn, subnet, b.0) {
                                assert(b.0 == a.0);
                            }
                            assert(!same_selection(mo, mn, subnet));
                        }
                    }
                },
                (None, Some(a)) => {
                    assert(has_selected(mn, subnet, a.0));
                    assert(!has_selected(mo, subnet, a.0));
                    assert(!same_selection(mo, mn, subnet));
                },
                (Some(b), None) => {
                    assert(has_selected(mo, subnet, b.0));
                    assert(!has_selected(mn, subnet, b.0));
                    assert(!same_selection(mo, mn, subnet));
                },
            }
        }
        changed
    }

    /// A neighbour's session ended: retract every route learned from it.
    /// Each of its entries keeps its place with the infinite metric (so
    /// the retractions propagate before the entries are swept), and
    /// selection re-runs for each affected subnet. Feasibility distances
    /// are untouched.
    pub fn retract_peer_routes(&mut self, neighbour: Peer)
        requires
            old(self).wf(),
        ensures
            final(self).wf(),
            final(self).peers() == old(self).peers(),
            final(self).feasibility() == old(self).feasibility(),
            final(self).routes().dom() == old(self).routes().dom(),
            forall|k: RouteKey|
                #[trigger] final(self).routes().contains_key(k) && k.neighbor == neighbour
                    ==> final(self).routes()[k].metric.infinite(),
            forall|k: RouteKey|
                #[trigger] old(self).routes().contains_key(k) && k.neighbor != neighbour
                    ==> same_route(final(self).routes()[k], old(self).routes()[k]),
    {
        let ghost s0 = self.table.seq();
        proof {
            old(self).table.lemma_view();
        }
        let pairs = self.table.iter();
        let mut i: usize = 0;
        while i < pairs.len()
            invariant
                pairs@ == s0,
                s0 == old(self).table.seq(),
                old(self).wf(),
                self.wf(),
                self.peers() == old(self).peers(),
                self.feasibility() == old(self).feasibility(),
                i <= s0.len(),
                self.table@.dom() == old(self).table@.dom(),
                forall|j: int|
                    0 <= j < i && (#[trigger] s0[j]).0.neighbor == neighbour
                        ==> self.table@[s0[j].0].metric.infinite(),
                forall|k: RouteKey|
                    #[trigger] old(self).table@.contains_key(k) && k.neighbor != neighbour
                        ==> same_route(self.table@[k], old(self).table@[k]),
            decreases s0.len() - i,
        {
            let (key, _) = pairs[i];
            if key.neighbour().overlay_ip() == neighbour.overlay_ip() {
                proof {
                    old(self).table.lemma_view();
                    assert(old(self).table@.contains_key(key));
                    assert(key.subnet.wf());
                }
                let ghost mid = self.table@;
                self.handle_retraction(key.subnet(), key.neighbour());
                proof {
                    assert(key == (RouteKey { subnet: key.subnet, neighbor: key.neighbor }));
                    assert(self.table@[key].metric.infinite());
                    assert forall|j: int|
                        0 <= j < i + 1 && (#[trigger] s0[j]).0.neighbor == neighbour implies
                        self.table@[s0[j].0].metric.infinite() by {
                        if j < i && s0[j].0 != key {
                            assert(mid.contains_key(s0[j].0));
                            assert(same_route(self.table@[s0[j].0], mid[s0[j].0]));
                        }
                    }
                }
            } else {
                proof {
                    assert(key.neighbor.address != neighbour.address);
                    assert forall|j: int|
                        0 <= j < i + 1 && (#[trigger] s0[j]).0.neighbor == neighbour implies
                        self.table@[s0[j].0].metric.infinite() by {}
                }
            }
            i = i + 1;
        }
        proof {
            assert forall|k: RouteKey|
                #[trigger] self.table@.contains_key(k) && k.neighbor == neighbour implies
                self.table@[k].metric.infinite() by {
                old(self).table.lemma_view();
                assert(old(self).table@.contains_key(k));
                let j = choose|j: int| 0 <= j < s0.len() && (#[trigger] s0[j]).0 == k;
            }
        }
    }

    /// Drop every retracted entry: called once the retention window for
    /// propagating retractions has elapsed. Finite entries are untouched,
    /// and no selected route changes, since a retracted entry is never
    /// selected by a selection re-run.
    pub fn sweep_retracted(&mut self)
        requires
            old(self).wf(),
        ensures
            final(self).wf(),
            final(self).peers() == old(self).peers(),
            final(self).feasibility() == old(self).feasibility(),
            forall|k: RouteKey|
                #[trigger] final(self).routes().contains_key(k) <==> (old(
                    self,
                ).routes().contains_key(k) && !old(self).routes()[k].metric.infinite()),
            forall|k: RouteKey|
                #[trigger] final(self).routes().contains_key(k) ==> final(self).routes()[k] == old(
                    self,
                ).routes()[k],
    {
        let keep = |k: RouteKey, e: RouteEntry| -> (b: bool)
            ensures
                b == !e.metric.infinite(),
            {
                !e.metric.is_infinite()
            };
        self.table.retain(keep);
        proof {
            assert forall|k: RouteKey| #[trigger] self.table@.contains_key(k) <==> (old(
                self,
            ).table@.contains_key(k) && !old(self).table@[k].metric.infinite()) by {
                if old(self).table@.contains_key(k) && !old(self).table@[k].metric.infinite() {
                    if !self.table@.contains_key(k) {
                        assert(false);
                    }
                }
            }
            assert(entries_consistent(self.table@));
            assert forall|k1: RouteKey, k2: RouteKey|
                #![trigger self.table@.contains_key(k1), self.table@.contains_key(k2)]
                self.table@.contains_key(k1) && self.table@.contains_key(k2) && k1 != k2
                    && k1.subnet == k2.subnet implies !(self.table@[k1].selected
                && self.table@[k2].selected) by {
                assert(old(self).table@.contains_key(k1) && old(self).table@.contains_key(k2));
            }
        }
    }

    /// Build the triggered update for a subnet whose selected route
    /// changed: the advertisement (origin, seqno, metric as seen by this
    /// router) for the selected entry, addressed to every
    /// directly-connected peer except the one the route was learned from
    /// (split-horizon). With no selected route nothing is built; a newly
    /// unreachable subnet is advertised with `retraction_update`.
    pub fn triggered_update(&self, subnet: Subnet, link_cost: Metric) -> (r: Vec<
        (Peer, ControlPacket),
    >)
        requires
            self.wf(),
        ensures
            (forall|k: RouteKey| !(#[trigger] has_selected(self.routes(), subnet, k)))
                ==> r@.len() == 0,
            forall|k: RouteKey|
                #[trigger] has_selected(self.routes(), subnet, k) ==> (forall|i: int|
                    0 <= i < r@.len() ==> (#[trigger] r@[i]).1 == advertised_packet(
                        self.routes()[k],
                        subnet,
                        link_cost,
                    ) && r@[i].0 != k.neighbor && self.peers().contains(r@[i].0)),
            forall|k: RouteKey|
                #[trigger] has_selected(self.routes(), subnet, k) ==> (forall|j: int|
                    0 <= j < self.peers().len() && (#[trigger] self.peers()[j]) != k.neighbor
                        ==> r@.contains(
                        (self.peers()[j], advertised_packet(self.routes()[k], subnet, link_cost)),
                    )),
    {
        let sel = self.selected_route_for(subnet);
        let mut r: Vec<(Peer, ControlPacket)> = Vec::new();
        match sel {
            None => r,
            Some((key, _)) => {
                let entry = match self.table.get(&key) {
                    Some(e) => e,
                    None => {
                        return r;
                    },
                };
                let ghost adv = advertised_packet(entry, subnet, link_cost);
                let body = UpdateBody {
                    subnet,
                    router_id: entry.source.router_id,
                    seqno: entry.seqno,
                    metric: entry.metric.saturating_add(link_cost),
                };
                let packet = ControlPacket::update(body);
                proof {
                    assert(packet == adv);
                }
                let mut i: usize = 0;
                while i < self.directly_connected_peers.len()
                    invariant
                        i <= self.peers().len(),
                        packet == adv,
                        forall|x: int|
                            0 <= x < r@.len() ==> (#[trigger] r@[x]).1 == adv && r@[x].0
                                != key.neighbor && self.peers().contains(r@[x].0),
                        forall|j: int|
                            0 <= j < i && (#[trigger] self.peers()[j]) != key.neighbor
                                ==> r@.contains((self.peers()[j], adv)),
                    decreases self.peers().len() - i,
                {
                    let p = self.directly_connected_peers[i];
                    if p.overlay_ip() != key.neighbour().overlay_ip() {
                        let ghost r0 = r@;
                        r.push((p, packet));
                        proof {
                            assert(p.address != key.neighbor.address);
                            assert(self.peers()[i as int] == p);
                            assert(r@[r@.len() - 1] == (p, adv));
                            assert forall|j: int|
                                0 <= j < i + 1 && (#[trigger] self.peers()[j])
                                    != key.neighbor implies r@.contains(
                                (self.peers()[j], adv),
                            ) by {
                                if j < i {
                                    let x = choose|x: int|
                                        0 <= x < r0.len() && r0[x] == (self.peers()[j], adv);
                                    assert(r@[x] == (self.peers()[j], adv));
                                } else {
                                    assert(r@[r@.len() - 1] == (self.peers()[j], adv));
                                }
                            }
                        }
                    }
                    i = i + 1;
                }
                proof {
                    assert forall|k: RouteKey|
                        #[trigger] has_selected(self.routes(), subnet, k) implies k == key by {}
                }
                r
            },
        }
    }

    /// Build the retraction advertisement for a subnet that has become
    /// unreachable: the infinite metric under the origin's seqno, sent to
    /// every directly-connected peer so the withdrawal propagates.
    pub fn retraction_update(&self, subnet: Subnet, router_id: RouterId, seqno: SeqNo) -> (r: Vec<
        (Peer, ControlPacket),
    >)
        ensures
            r@.len() == self.peers().len(),
            forall|i: int|
                0 <= i < r@.len() ==> (#[trigger] r@[i]).0 == self.peers()[i]
                    && r@[i].1.message_type == ControlPacketType::Update && r@[i].1.body == Some(
                    UpdateBody { subnet, router_id, seqno, metric: Metric { value: INFINITE_METRIC } },
                ),
    {
        let body = UpdateBody { subnet, router_id, seqno, metric: Metric::infinity() };
        let packet = ControlPacket::update(body);
        let mut r: Vec<(Peer, ControlPacket)> = Vec::new();
        let mut i: usize = 0;
        while i < self.directly_connected_peers.len()
            invariant
                i <= self.peers().len(),
                r@.len() == i,
                packet.message_type == ControlPacketType::Update,
                packet.body == Some(
                    UpdateBody { subnet, router_id, seqno, metric: Metric { value: INFINITE_METRIC } },
                ),
                forall|j: int|
                    0 <= j < i ==> (#[trigger] r@[j]).0 == self.peers()[j] && r@[j].1 == packet,
            decreases self.peers().len() - i,
        {
            r.push((self.directly_connected_peers[i], packet));
            i = i + 1;
        }
        r
    }

    /// Garbage-collect the feasibility records: drop every source that no
    /// entry in the routing table references any more. Called after the
    /// retracted entries for the source have been swept and the caller's
    /// retention window has elapsed. Routes and kept records are
    /// untouched.
    pub fn prune_sources(&mut self)
        requires
            old(self).wf(),
        ensures
            final(self).wf(),
            final(self).peers() == old(self).peers(),
            final(self).routes() == old(self).routes(),
            forall|s: SourceKey|
                #[trigger] final(self).feasibility().contains_key(s) <==> (old(self).feasibility().contains_key(s)
                    && exists|k: RouteKey|
                    #[trigger] old(self).routes().contains_key(k) && old(self).routes()[k].source
                        == s),
            forall|s: SourceKey|
                #[trigger] final(self).feasibility().contains_key(s)
                    ==> final(self).feasibility()[s] == old(self).feasibility()[s],
    {
        proof {
            self.table.lemma_view();
        }
        let ghost s0 = self.table.seq();
        let mut referenced: Vec<SourceKey> = Vec::new();
        let n = self.table.len();
        let mut i: usize = 0;
        while i < n
            invariant
                n == s0.len(),
                s0 == self.table.seq(),
                i <= n,
                referenced@.len() == i,
                forall|j: int| 0 <= j < i ==> (#[trigger] referenced@[j]) == s0[j].1.source,
            decreases n - i,
        {
            let (_, e) = self.table.entry_at(i);
            referenced.push(e.source);
            i = i + 1;
        }
        let keep = |s: SourceKey| -> (b: bool)
            ensures
                b == referenced@.contains(s),
            {
                let mut j: usize = 0;
                let mut found = false;
                while j < referenced.len()
                    invariant
                        j <= referenced@.len(),
                        found == exists|x: int| 0 <= x < j && (#[trigger] referenced@[x]) == s,
                    decreases referenced@.len() - j,
                {
                    if referenced[j] == s {
                        found = true;
                    }
                    j = j + 1;
                }
                found
            };
        self.sources.prune(keep);
        proof {
            assert forall|s: SourceKey| #[trigger] self.sources@.contains_key(s) <==> (old(
                self,
            ).sources@.contains_key(s) && exists|k: RouteKey|
                #[trigger] self.table@.contains_key(k) && self.table@[k].source == s) by {
                if self.sources@.contains_key(s) {
                    assert(referenced@.contains(s));
                    let j = choose|j: int| 0 <= j < referenced@.len() && referenced@[j] == s;
                    assert(s0[j].1.source == s);
                    assert(self.table@.contains_key(s0[j].0) && self.table@[s0[j].0] == s0[j].1);
                }
                if old(self).sources@.contains_key(s) && exists|k: RouteKey|
                    #[trigger] self.table@.contains_key(k) && self.table@[k].source == s {
                    let k = choose|k: RouteKey|
                        #[trigger] self.table@.contains_key(k) && self.table@[k].source == s;
                    let j = choose|j: int| 0 <= j < s0.len() && (#[trigger] s0[j]).0 == k;
                    assert(referenced@[j] == s);
                    assert(referenced@.contains(s));
                    if !self.sources@.contains_key(s) {
                        assert(false);
                    }
                }
            }
        }
    }

    /// Every route the router knows, one pair per key, for diagnostics.
    pub fn route_list(&self) -> (r: Vec<(RouteKey, RouteEntry)>)
        requires
            self.wf(),
        ensures
            forall|i: int|
                0 <= i < r@.len() ==> self.routes().contains_key((#[trigger] r@[i]).0)
                    && self.routes()[r@[i].0] == r@[i].1,
            forall|k: RouteKey|
                #[trigger] self.routes().contains_key(k) ==> exists|i: int|
                    0 <= i < r@.len() && (#[trigger] r@[i]).0 == k,
            forall|i: int, j: int|
                0 <= i < j < r@.len() ==> (#[trigger] r@[i]).0 != (#[trigger] r@[j]).0,
    {
        proof {
            self.table.lemma_view();
        }
        self.table.iter()
    }

    /// The best feasibility distance recorded for an origin.
    pub fn feasibility_distance(&self, source: SourceKey) -> (r: Option<(SeqNo, Metric)>)
        requires
            self.wf(),
        ensures
            match r {
                Some(d) => self.feasibility().contains_key(source) && d
                    == self.feasibility()[source],
                None => !self.feasibility().contains_key(source),
            },
    {
        self.sources.feasibility_distance(source)
    }
}

} // verus!
