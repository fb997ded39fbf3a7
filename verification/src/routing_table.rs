//! The routing table: one entry per (subnet, advertising neighbour) pair.

use vstd::prelude::*;
use core::cmp::Ordering;
use crate::assoc::{
    lemma_map_of_pairs, lemma_map_of_pairs_push, lemma_map_of_pairs_remove,
    lemma_map_of_pairs_update, map_of_pairs, pairs_unique,
};
use crate::metric::Metric;
use crate::peer::Peer;
use crate::router_id::RouterId;
use crate::sequence_number::SeqNo;
use crate::source_table::SourceKey;
use crate::subnet::Subnet;

verus! {

/// Identifies one advertisement: this neighbour's claim about this
/// subnet. Ordered first by subnet, then by the neighbour's overlay
/// address, giving the table a canonical scan order.
#[derive(Clone, Copy, Debug, PartialEq, Eq, Structural)]
pub struct RouteKey {
    pub subnet: Subnet,
    pub neighbor: Peer,
}

/// Canonical order on route keys: subnet address, then prefix length,
/// then the advertising neighbour's overlay address.
pub open spec fn route_key_order(a: RouteKey, b: RouteKey) -> Ordering {
    if a.subnet.address < b.subnet.address {
        Ordering::Less
    } else if a.subnet.address > b.subnet.address {
        Ordering::Greater
    } else if a.subnet.prefix_len < b.subnet.prefix_len {
        Ordering::Less
    } else if a.subnet.prefix_len > b.subnet.prefix_len {
        Ordering::Greater
    } else if a.neighbor.address < b.neighbor.address {
        Ordering::Less
    } else if a.neighbor.address > b.neighbor.address {
        Ordering::Greater
    } else {
        Ordering::Equal
    }
}

impl RouteKey {
    /// Create a new `RouteKey` with the given values.
    pub fn new(subnet: Subnet, neighbor: Peer) -> (r: RouteKey)
        ensures
            r.subnet == subnet,
            r.neighbor == neighbor,
    {
        RouteKey { subnet, neighbor }
    }

    /// The subnet this advertisement is about.
    pub fn subnet(&self) -> (r: Subnet)
        ensures
            r == self.subnet,
    {
        self.subnet
    }

    /// The neighbour that made this advertisement.
    pub fn neighbour(&self) -> (r: Peer)
        ensures
            r == self.neighbor,
    {
        self.neighbor
    }
}

impl PartialOrd for RouteKey {
    fn partial_cmp(&self, other: &Self) -> (r: Option<Ordering>) {
        if self.subnet.address < other.subnet.address {
            Some(Ordering::Less)
        } else if self.subnet.address > other.subnet.address {
            Some(Ordering::Greater)
        } else if self.subnet.prefix_len < other.subnet.prefix_len {
            Some(Ordering::Less)
        } else if self.subnet.prefix_len > other.subnet.prefix_len {
            Some(Ordering::Greater)
        } else if self.neighbor.address < other.neighbor.address {
            Some(Ordering::Less)
        } else if self.neighbor.address > other.neighbor.address {
            Some(Ordering::Greater)
        } else {
            Some(Ordering::Equal)
        }
    }
}

impl vstd::std_specs::cmp::PartialOrdSpecImpl for RouteKey {
    open spec fn obeys_partial_cmp_spec() -> bool {
        true
    }

    open spec fn partial_cmp_spec(&self, other: &Self) -> Option<Ordering> {
        Some(route_key_order(*self, *other))
    }
}

/// One advertisement: who originated the route, who told us, at what
/// cost and sequence number, and whether this entry is the one chosen to
/// forward traffic for its subnet.
#[derive(Clone, Copy, Debug, PartialEq, Eq, Structural)]
pub struct RouteEntry {
    pub source: SourceKey,
    pub neighbor: Peer,
    pub metric: Metric,
    pub seqno: SeqNo,
    pub selected: bool,
}

impl RouteEntry {
    /// Create a new `RouteEntry`.
    pub fn new(
        source: SourceKey,
        neighbor: Peer,
        metric: Metric,
        seqno: SeqNo,
        selected: bool,
    ) -> (r: RouteEntry)
        ensures
            r.source == source,
            r.neighbor == neighbor,
            r.metric == metric,
            r.seqno == seqno,
            r.selected == selected,
    {
        RouteEntry { source, neighbor, metric, seqno, selected }
    }

    /// The origin of this route.
    pub fn source(&self) -> (r: SourceKey)
        ensures
            r == self.source,
    {
        self.source
    }

    /// The metric as advertised by the neighbour.
    pub fn metric(&self) -> (r: Metric)
        ensures
            r == self.metric,
    {
        self.metric
    }

    /// The neighbour that advertised this route.
    pub fn neighbour(&self) -> (r: Peer)
        ensures
            r == self.neighbor,
    {
        self.neighbor
    }

    /// Whether this entry is the selected route for its subnet.
    pub fn selected(&self) -> (r: bool)
        ensures
            r == self.selected,
    {
        self.selected
    }

    /// Updates the metric of this entry to the given value.
    pub fn update_metric(&mut self, metric: Metric)
        ensures
            *final(self) == (RouteEntry { metric, ..*old(self) }),
    {
        self.metric = metric;
    }

    /// Updates the seqno of this entry to the given value.
    pub fn update_seqno(&mut self, seqno: SeqNo)
        ensures
            *final(self) == (RouteEntry { seqno, ..*old(self) }),
    {
        self.seqno = seqno;
    }

    /// Updates the origin router of this entry to the given value.
    pub fn update_router_id(&mut self, router_id: RouterId)
        ensures
            *final(self) == (RouteEntry {
                source: SourceKey { router_id, subnet: old(self).source.subnet },
                ..*old(self)
            }),
    {
        self.source.set_router_id(router_id);
    }

    /// Sets whether this entry is the selected route for its subnet.
    pub fn set_selected(&mut self, selected: bool)
        ensures
            *final(self) == (RouteEntry { selected, ..*old(self) }),
    {
        self.selected = selected;
    }
}

/// The authoritative store of all known routes: a mapping from
/// `RouteKey` to `RouteEntry`, with one entry per (subnet, neighbour)
/// pair. Point access works on exact keys; `lookup` resolves a
/// destination address to the longest matching prefix among selected
/// entries.
pub struct RoutingTable {
    entries: Vec<(RouteKey, RouteEntry)>,
}

impl View for RoutingTable {
    type V = Map<RouteKey, RouteEntry>;

    closed spec fn view(&self) -> Map<RouteKey, RouteEntry> {
        map_of_pairs(self.entries@)
    }
}

impl RoutingTable {
    /// The entries in scan order; `self@` is the map they denote.
    pub closed spec fn seq(self) -> Seq<(RouteKey, RouteEntry)> {
        self.entries@
    }

    /// Internal invariant: one entry per key, and every stored subnet is
    /// well formed (callers must not construct a `RouteKey` with a
    /// malformed subnet).
    pub open spec fn wf(self) -> bool {
        &&& pairs_unique(self.seq())
        &&& forall|i: int|
            0 <= i < self.seq().len() ==> (#[trigger] self.seq()[i]).0.subnet.wf()
    }

    /// The scan order and the map agree: a key is in the map exactly when
    /// some position holds it, and it maps to that position's entry.
    pub proof fn lemma_view(self)
        requires
            self.wf(),
        ensures
            forall|k: RouteKey|
                #[trigger] self@.contains_key(k) <==> exists|i: int|
                    0 <= i < self.seq().len() && (#[trigger] self.seq()[i]).0 == k,
            forall|i: int|
                0 <= i < self.seq().len() ==> self@.contains_key((#[trigger] self.seq()[i]).0)
                    && self@[self.seq()[i].0] == self.seq()[i].1,
    {
        lemma_map_of_pairs(self.entries@);
    }

    /// Create a new, empty `RoutingTable`.
    pub fn new() -> (r: RoutingTable)
        ensures
            r.wf(),
            r@ == Map::<RouteKey, RouteEntry>::empty(),
            r.seq().len() == 0,
    {
        RoutingTable { entries: Vec::new() }
    }

    /// Number of entries in the table.
    pub fn len(&self) -> (r: usize)
        ensures
            r == self.seq().len(),
    {
        self.entries.len()
    }

    /// The key/entry pair at a scan position.
    pub fn entry_at(&self, i: usize) -> (r: (RouteKey, RouteEntry))
        requires
            i < self.seq().len(),
        ensures
            r == self.seq()[i as int],
    {
        self.entries[i]
    }

    /// Position of the entry for `key`, if one exists.
    fn index_of(&self, key: &RouteKey) -> (r: Option<usize>)
        ensures
            match r {
                Some(i) => i < self.seq().len() && self.seq()[i as int].0 == *key,
                None => forall|i: int|
                    0 <= i < self.seq().len() ==> (#[trigger] self.seq()[i]).0 != *key,
            },
    {
        let mut i: usize = 0;
        while i < self.entries.len()
            invariant
                i <= self.entries@.len(),
                forall|j: int| 0 <= j < i ==> (#[trigger] self.entries@[j]).0 != *key,
            decreases self.entries@.len() - i,
        {
            if self.entries[i].0 == *key {
                return Some(i);
            }
            i = i + 1;
        }
        None
    }

    /// The entry for `key`, if one is present in the table.
    pub fn get(&self, key: &RouteKey) -> (r: Option<RouteEntry>)
        requires
            self.wf(),
        ensures
            match r {
                Some(e) => self@.contains_key(*key) && e == self@[*key],
                None => !self@.contains_key(*key),
            },
    {
        proof {
            self.lemma_view();
        }
        match self.index_of(key) {
            Some(i) => Some(self.entries[i].1),
            None => None,
        }
    }

    /// Whether there is an entry for the given key.
    pub fn contains_key(&self, key: &RouteKey) -> (r: bool)
        requires
            self.wf(),
        ensures
            r == self@.contains_key(*key),
    {
        self.get(key).is_some()
    }

    /// Mutable point access to the entry for `key`, if one is present.
    /// The table afterwards holds whatever the caller left behind the
    /// reference; if that changes what selection depends on, the caller
    /// re-runs selection for the subnet.
    pub fn get_mut(&mut self, key: &RouteKey) -> (r: Option<&mut RouteEntry>)
        requires
            old(self).wf(),
        ensures
            match r {
                Some(e) => {
                    &&& old(self)@.contains_key(*key)
                    &&& *e == old(self)@[*key]
                    &&& final(self).wf()
                    &&& final(self)@ == old(self)@.insert(*key, *final(e))
                },
                None => !old(self)@.contains_key(*key) && *final(self) == *old(self),
            },
    {
        proof {
            self.lemma_view();
        }
        match self.index_of(key) {
            Some(i) => {
                let ghost s = self.entries@;
                proof {
                    assert forall|p: (RouteKey, RouteEntry)| p.0 == s[i as int].0 implies
                        #[trigger] map_of_pairs(s.update(i as int, p)) == map_of_pairs(s).insert(
                        *key,
                        p.1,
                    ) && pairs_unique(s.update(i as int, p)) && (forall|j: int|
                        0 <= j < s.len() ==> (#[trigger] s.update(i as int, p)[j]).0.subnet.wf())
                        by {
                        lemma_map_of_pairs_update(s, i as int, p.1);
                        assert(s.update(i as int, p) =~= s.update(
                            i as int,
                            (s[i as int].0, p.1),
                        ));
                        assert forall|j: int|
                            0 <= j < s.len() implies (#[trigger] s.update(
                            i as int,
                            p,
                        )[j]).0.subnet.wf() by {
                            assert(s.update(i as int, p)[j].0 == s[j].0);
                        }
                    }
                }
                Some(&mut self.entries[i].1)
            },
            None => None,
        }
    }

    /// Insert an entry for `key`, replacing any prior entry for that key:
    /// an unconditional upsert. Insertion alone never re-evaluates which
    /// entry is selected; the caller re-runs selection afterwards.
    pub fn insert(&mut self, key: RouteKey, entry: RouteEntry)
        requires
            old(self).wf(),
            key.subnet.wf(),
        ensures
            final(self).wf(),
            final(self)@ == old(self)@.insert(key, entry),
    {
        self.remove(&key);
        proof {
            self.lemma_view();
            assert forall|i: int| 0 <= i < self.seq().len() implies (#[trigger] self.seq()[i]).0
                != key by {
                if self.seq()[i].0 == key {
                    assert(self@.contains_key(key));
                }
            }
            lemma_map_of_pairs_push(self.entries@, (key, entry));
            assert(old(self)@.remove(key).insert(key, entry) =~= old(self)@.insert(key, entry));
        }
        self.entries.push((key, entry));
    }

    /// Remove the entry for `key`, returning it if it existed. If the
    /// removed entry was selected, the caller must re-run selection for
    /// its subnet.
    pub fn remove(&mut self, key: &RouteKey) -> (r: Option<RouteEntry>)
        requires
            old(self).wf(),
        ensures
            final(self).wf(),
            match r {
                Some(e) => old(self)@.contains_key(*key) && e == old(self)@[*key] && final(self)@
                    == old(self)@.remove(*key),
                None => !old(self)@.contains_key(*key) && *final(self) == *old(self),
            },
    {
        proof {
            self.lemma_view();
        }
        match self.index_of(key) {
            Some(i) => {
                proof {
                    lemma_map_of_pairs_remove(self.entries@, i as int);
                }
                let entry = self.entries[i].1;
                self.entries.remove(i);
                Some(entry)
            },
            None => None,
        }
    }

    /// Replace the entry at a scan position, keeping its key.
    pub fn update_entry_at(&mut self, i: usize, entry: RouteEntry)
        requires
            old(self).wf(),
            i < old(self).seq().len(),
        ensures
            final(self).wf(),
            final(self).seq() == old(self).seq().update(
                i as int,
                (old(self).seq()[i as int].0, entry),
            ),
            final(self)@ == old(self)@.insert(old(self).seq()[i as int].0, entry),
    {
        proof {
            lemma_map_of_pairs_update(self.entries@, i as int, entry);
        }
        let key = self.entries[i].0;
        self.entries.remove(i);
        self.entries.insert(i, (key, entry));
        proof {
            assert(self.entries@ =~= old(self).seq().update(
                i as int,
                (old(self).seq()[i as int].0, entry),
            ));
        }
    }

    /// All key/entry pairs in scan order.
    pub fn iter(&self) -> (r: Vec<(RouteKey, RouteEntry)>)
        ensures
            r@ == self.seq(),
    {
        let mut out: Vec<(RouteKey, RouteEntry)> = Vec::new();
        let mut i: usize = 0;
        while i < self.entries.len()
            invariant
                i <= self.entries@.len(),
                out@ == self.entries@.subrange(0, i as int),
            decreases self.entries@.len() - i,
        {
            out.push(self.entries[i]);
            proof {
                assert(out@ =~= self.entries@.subrange(0, i + 1));
            }
            i = i + 1;
        }
        proof {
            assert(out@ =~= self.entries@);
        }
        out
    }

    /// Only keep the entries the predicate accepts: bulk prune, e.g. for
    /// neighbour-session teardown or a periodic expiry sweep.
    pub fn retain<F: Fn(RouteKey, RouteEntry) -> bool>(&mut self, f: F)
        requires
            old(self).wf(),
            forall|k: RouteKey, e: RouteEntry| #[trigger] f.requires((k, e)),
        ensures
            final(self).wf(),
            forall|k: RouteKey|
                #[trigger] final(self)@.contains_key(k) ==> old(self)@.contains_key(k)
                    && final(self)@[k] == old(self)@[k] && f.ensures((k, old(self)@[k]), true),
            forall|k: RouteKey|
                old(self)@.contains_key(k) && !(#[trigger] final(self)@.contains_key(k))
                    ==> f.ensures((k, old(self)@[k]), false),
    {
        let ghost orig = self.entries@;
        proof {
            lemma_map_of_pairs(orig);
        }
        let mut kept: Vec<(RouteKey, RouteEntry)> = Vec::new();
        let mut i: usize = 0;
        while i < self.entries.len()
            invariant
                self.entries@ == orig,
                pairs_unique(orig),
                forall|j: int| 0 <= j < orig.len() ==> (#[trigger] orig[j]).0.subnet.wf(),
                i <= orig.len(),
                pairs_unique(kept@),
                forall|j: int|
                    0 <= j < kept@.len() ==> exists|j0: int|
                        0 <= j0 < i && orig[j0] == #[trigger] kept@[j],
                forall|j0: int|
                    0 <= j0 < i ==> (exists|j: int| 0 <= j < kept@.len() && kept@[j] == orig[j0])
                        || f.ensures(((#[trigger] orig[j0]).0, orig[j0].1), false),
                forall|j0: int|
                    0 <= j0 < i && (exists|j: int| 0 <= j < kept@.len() && kept@[j] == orig[j0])
                        ==> f.ensures(((#[trigger] orig[j0]).0, orig[j0].1), true),
                forall|k: RouteKey, e: RouteEntry| #[trigger] f.requires((k, e)),
            decreases orig.len() - i,
        {
            let (key, entry) = self.entries[i];
            if f(key, entry) {
                proof {
                    assert forall|j: int| 0 <= j < kept@.len() implies (#[trigger] kept@[j]).0
                        != key by {
                        let j0 = choose|j0: int| 0 <= j0 < i && orig[j0] == kept@[j];
                        if kept@[j].0 == key {
                            assert(orig[j0].0 == orig[i as int].0);
                        }
                    }
                    lemma_map_of_pairs_push(kept@, (key, entry));
                }
                let ghost kept0 = kept@;
                kept.push((key, entry));
                proof {
                    assert(kept@[kept@.len() - 1] == orig[i as int]);
                    assert forall|j0: int|
                        0 <= j0 < i + 1 implies (exists|j: int|
                        0 <= j < kept@.len() && kept@[j] == orig[j0]) || f.ensures(
                        ((#[trigger] orig[j0]).0, orig[j0].1),
                        false,
                    ) by {
                        if j0 == i {
                            assert(kept@[kept@.len() - 1] == orig[j0]);
                        } else if exists|j: int| 0 <= j < kept0.len() && kept0[j] == orig[j0] {
                            let j = choose|j: int| 0 <= j < kept0.len() && kept0[j] == orig[j0];
                            assert(kept@[j] == orig[j0]);
                        }
                    }
                    assert forall|j0: int|
                        0 <= j0 < i + 1 && (exists|j: int|
                        0 <= j < kept@.len() && kept@[j] == orig[j0]) implies f.ensures(
                        ((#[trigger] orig[j0]).0, orig[j0].1),
                        true,
                    ) by {
                        if j0 < i {
                            let j = choose|j: int| 0 <= j < kept@.len() && kept@[j] == orig[j0];
                            if j < kept0.len() {
                                assert(kept0[j] == orig[j0]);
                            } else {
                                assert(kept@[j] == orig[i as int]);
                                assert(orig[j0].0 == orig[i as int].0);
                            }
                        }
                    }
                }
            } else {
                proof {
                    assert(f.ensures((orig[i as int].0, orig[i as int].1), false));
                    assert forall|j0: int|
                        0 <= j0 < i + 1 implies (exists|j: int|
                        0 <= j < kept@.len() && kept@[j] == orig[j0]) || f.ensures(
                        ((#[trigger] orig[j0]).0, orig[j0].1),
                        false,
                    ) by {}
                }
            }
            i = i + 1;
        }
        proof {
            lemma_map_of_pairs(kept@);
        }
        self.entries = kept;
        proof {
            assert forall|j: int| 0 <= j < self.seq().len() implies (
            #[trigger] self.seq()[j]).0.subnet.wf() by {
                let j0 = choose|j0: int| 0 <= j0 < orig.len() && orig[j0] == kept@[j];
            }
            assert forall|k: RouteKey| #[trigger] self@.contains_key(k) implies old(
                self,
            )@.contains_key(k) && self@[k] == old(self)@[k] && f.ensures(
                (k, old(self)@[k]),
                true,
            ) by {
                let j = choose|j: int| 0 <= j < kept@.len() && (#[trigger] kept@[j]).0 == k;
                let j0 = choose|j0: int| 0 <= j0 < orig.len() && orig[j0] == kept@[j];
                assert(old(self)@.contains_key(k) && old(self)@[k] == orig[j0].1);
                assert(self@[k] == kept@[j].1);
            }
            assert forall|k: RouteKey|
                old(self)@.contains_key(k) && !(#[trigger] self@.contains_key(k)) implies f.ensures(
                (k, old(self)@[k]),
                false,
            ) by {
                let j0 = choose|j0: int| 0 <= j0 < orig.len() && (#[trigger] orig[j0]).0 == k;
                if exists|j: int| 0 <= j < kept@.len() && kept@[j] == orig[j0] {
                    let j = choose|j: int| 0 <= j < kept@.len() && kept@[j] == orig[j0];
                    assert(kept@[j].0 == k);
                }
            }
        }
    }

    /// Resolve a destination address to a route: among the entries with
    /// `selected` set whose subnet contains `ip`, return the one with the
    /// longest prefix. Unselected entries are never returned, whatever
    /// their prefix length.
    pub fn lookup(&self, ip: u128) -> (r: Option<RouteEntry>)
        requires
            self.wf(),
        ensures
            match r {
                Some(e) => exists|k: RouteKey|
                    {
                        &&& #[trigger] self@.contains_key(k)
                        &&& self@[k] == e
                        &&& e.selected
                        &&& k.subnet.contains(ip)
                        &&& forall|k2: RouteKey|
                            #[trigger] self@.contains_key(k2) && self@[k2].selected
                                && k2.subnet.contains(ip) ==> k2.subnet.prefix_len
                                <= k.subnet.prefix_len
                    },
                None => forall|k: RouteKey|
                    #[trigger] self@.contains_key(k) ==> !(self@[k].selected && k.subnet.contains(
                        ip,
                    )),
            },
    {
        proof {
            self.lemma_view();
        }
        let ghost s = self.seq();
        let mut best: Option<usize> = None;
        let mut i: usize = 0;
        while i < self.entries.len()
            invariant
                self.wf(),
                s == self.seq(),
                i <= s.len(),
                match best {
                    Some(b) => b < i && s[b as int].1.selected && s[b as int].0.subnet.contains(ip)
                        && forall|j: int|
                        0 <= j < i && (#[trigger] s[j]).1.selected && s[j].0.subnet.contains(ip)
                            ==> s[j].0.subnet.prefix_len <= s[b as int].0.subnet.prefix_len,
                    None => forall|j: int|
                        0 <= j < i ==> !((#[trigger] s[j]).1.selected && s[j].0.subnet.contains(
                            ip,
                        )),
                },
            decreases s.len() - i,
        {
            let (key, entry) = self.entries[i];
            if entry.selected() && key.subnet.contains_ip(ip) {
                match best {
                    None => {
                        best = Some(i);
                    },
                    Some(b) => {
                        let best_key = self.entries[b].0;
                        if key.subnet.prefix_len > best_key.subnet.prefix_len {
                            best = Some(i);
                        }
                    },
                }
            }
            i = i + 1;
        }
        match best {
            None => {
                proof {
                    assert forall|k: RouteKey| #[trigger] self@.contains_key(k) implies !(
                    self@[k].selected && k.subnet.contains(ip)) by {
                        let j = choose|j: int| 0 <= j < s.len() && (#[trigger] s[j]).0 == k;
                    }
                }
                None
            },
            Some(b) => {
                let entry = self.entries[b].1;
                proof {
                    let bk = s[b as int].0;
                    assert(self@.contains_key(bk) && self@[bk] == s[b as int].1);
                    assert forall|k2: RouteKey|
                        #[trigger] self@.contains_key(k2) && self@[k2].selected
                            && k2.subnet.contains(ip) implies k2.subnet.prefix_len
                        <= bk.subnet.prefix_len by {
                        let j = choose|j: int| 0 <= j < s.len() && (#[trigger] s[j]).0 == k2;
                    }
                }
                Some(entry)
            },
        }
    }
}

/// Inserting twice under one key leaves exactly one entry for it: the
/// last write wins.
pub proof fn lemma_insert_last_write_wins(
    m: Map<RouteKey, RouteEntry>,
    k: RouteKey,
    e1: RouteEntry,
    e2: RouteEntry,
)
    ensures
        m.insert(k, e1).insert(k, e2) == m.insert(k, e2),
        m.insert(k, e1).insert(k, e2)[k] == e2,
{
    assert(m.insert(k, e1).insert(k, e2) =~= m.insert(k, e2));
}

} // verus!
