//! The source table: best feasibility distance ever heard per origin.

use vstd::prelude::*;
use crate::assoc::{
    lemma_map_of_pairs, lemma_map_of_pairs_push, lemma_map_of_pairs_remove, map_of_pairs,
    pairs_unique,
};
use crate::metric::Metric;
use crate::router_id::RouterId;
use crate::sequence_number::{seqno_newer, SeqNo};
use crate::subnet::Subnet;

verus! {

/// Identifies the origin of a route: the advertised subnet together with
/// the router that first announced it, independent of which neighbour
/// re-advertised the route.
#[derive(Clone, Copy, Debug, PartialEq, Eq, Structural)]
pub struct SourceKey {
    pub subnet: Subnet,
    pub router_id: RouterId,
}

impl SourceKey {
    pub fn new(subnet: Subnet, router_id: RouterId) -> (r: SourceKey)
        ensures
            r.subnet == subnet,
            r.router_id == router_id,
    {
        SourceKey { subnet, router_id }
    }

    /// Replace the origin router of this source.
    pub fn set_router_id(&mut self, router_id: RouterId)
        ensures
            final(self).router_id == router_id,
            final(self).subnet == old(self).subnet,
    {
        self.router_id = router_id;
    }
}

/// The feasibility condition: an advertisement `(seqno, metric)` for
/// `source` is feasible against the recorded distances `st` iff no
/// distance is recorded for `source`, or the advertised seqno is strictly
/// newer (wraparound-aware), or the seqno is equal and the metric is
/// strictly lower. Infeasible advertisements must never be selected; this
/// is what prevents count-to-infinity loops.
pub open spec fn feasible(
    st: Map<SourceKey, (SeqNo, Metric)>,
    source: SourceKey,
    seqno: SeqNo,
    metric: Metric,
) -> bool {
    ||| !st.contains_key(source)
    ||| seqno_newer(seqno.value, st[source].0.value)
    ||| (seqno.value == st[source].0.value && metric.value < st[source].1.value)
}

/// The selection-time variant of the feasibility condition: as
/// [`feasible`], but a route whose distance equals the recorded
/// feasibility distance stays selectable — it is the very advertisement
/// that set the record. Anything strictly worse at the same seqno, or
/// older, remains excluded.
pub open spec fn feasible_for_selection(
    st: Map<SourceKey, (SeqNo, Metric)>,
    source: SourceKey,
    seqno: SeqNo,
    metric: Metric,
) -> bool {
    ||| !st.contains_key(source)
    ||| seqno_newer(seqno.value, st[source].0.value)
    ||| (seqno.value == st[source].0.value && metric.value <= st[source].1.value)
}

/// Maps each origin to the best (lowest) feasibility distance ever heard
/// for it: a `(seqno, metric)` pair that only ever improves, and against
/// which every new advertisement is checked.
pub struct SourceTable {
    entries: Vec<(SourceKey, (SeqNo, Metric))>,
}

impl View for SourceTable {
    type V = Map<SourceKey, (SeqNo, Metric)>;

    closed spec fn view(&self) -> Map<SourceKey, (SeqNo, Metric)> {
        map_of_pairs(self.entries@)
    }
}

impl SourceTable {
    /// Internal invariant: one record per source.
    pub closed spec fn wf(self) -> bool {
        pairs_unique(self.entries@)
    }

    pub fn new() -> (r: SourceTable)
        ensures
            r.wf(),
            r@ == Map::<SourceKey, (SeqNo, Metric)>::empty(),
    {
        SourceTable { entries: Vec::new() }
    }

    /// Position of the record for `source`, if one exists.
    fn index_of(&self, source: &SourceKey) -> (r: Option<usize>)
        ensures
            match r {
                Some(i) => i < self.entries@.len() && self.entries@[i as int].0 == *source,
                None => forall|i: int|
                    0 <= i < self.entries@.len() ==> (#[trigger] self.entries@[i]).0 != *source,
            },
    {
        let mut i: usize = 0;
        while i < self.entries.len()
            invariant
                i <= self.entries@.len(),
                forall|j: int| 0 <= j < i ==> (#[trigger] self.entries@[j]).0 != *source,
            decreases self.entries@.len() - i,
        {
            if self.entries[i].0 == *source {
                return Some(i);
            }
            i = i + 1;
        }
        None
    }

    /// The current best known distance for `source`, or `None` if that
    /// origin was never heard from.
    pub fn feasibility_distance(&self, source: SourceKey) -> (r: Option<(SeqNo, Metric)>)
        requires
            self.wf(),
        ensures
            match r {
                Some(d) => self@.contains_key(source) && d == self@[source],
                None => !self@.contains_key(source),
            },
    {
        proof {
            lemma_map_of_pairs(self.entries@);
        }
        match self.index_of(&source) {
            Some(i) => Some(self.entries[i].1),
            None => {
                proof {
                    if self@.contains_key(source) {
                        let j = choose|j: int|
                            0 <= j < self.entries@.len() && (#[trigger] self.entries@[j]).0
                                == source;
                    }
                }
                None
            },
        }
    }

    /// Whether the advertisement passes the feasibility condition against
    /// the recorded distances.
    pub fn is_feasible(&self, source: SourceKey, seqno: SeqNo, metric: Metric) -> (r: bool)
        requires
            self.wf(),
        ensures
            r == feasible(self@, source, seqno, metric),
    {
        match self.feasibility_distance(source) {
            None => true,
            Some((fd_seqno, fd_metric)) => seqno.newer_than(fd_seqno) || (seqno.value
                == fd_seqno.value && metric.value < fd_metric.value),
        }
    }

    /// The selection-time feasibility test: like `is_feasible`, but a
    /// distance equal to the recorded one passes.
    pub fn is_feasible_for_selection(
        &self,
        source: SourceKey,
        seqno: SeqNo,
        metric: Metric,
    ) -> (r: bool)
        requires
            self.wf(),
        ensures
            r == feasible_for_selection(self@, source, seqno, metric),
    {
        match self.feasibility_distance(source) {
            None => true,
            Some((fd_seqno, fd_metric)) => seqno.newer_than(fd_seqno) || (seqno.value
                == fd_seqno.value && metric.value <= fd_metric.value),
        }
    }

    /// Record the advertised distance for `source` if it is an
    /// improvement: feasible per the condition, and finite — a retraction
    /// never lowers the feasibility distance. Returns whether the record
    /// changed.
    pub fn update(&mut self, source: SourceKey, seqno: SeqNo, metric: Metric) -> (changed: bool)
        requires
            old(self).wf(),
        ensures
            final(self).wf(),
            changed == (!metric.infinite() && feasible(old(self)@, source, seqno, metric)),
            final(self)@ == if changed {
                old(self)@.insert(source, (seqno, metric))
            } else {
                old(self)@
            },
    {
        if metric.is_infinite() || !self.is_feasible(source, seqno, metric) {
            return false;
        }
        proof {
            lemma_map_of_pairs(self.entries@);
        }
        match self.index_of(&source) {
            Some(i) => {
                proof {
                    lemma_map_of_pairs_remove(self.entries@, i as int);
                }
                let ghost removed = self.entries@.remove(i as int);
                self.entries.remove(i);
                proof {
                    lemma_map_of_pairs(removed);
                    assert forall|j: int| 0 <= j < removed.len() implies (
                    #[trigger] removed[j]).0 != source by {
                        if removed[j].0 == source {
                            let j0 = if j < i { j } else { j + 1 };
                            assert(old(self).entries@[j0] == removed[j]);
                        }
                    }
                    lemma_map_of_pairs_push(removed, (source, (seqno, metric)));
                    assert(old(self)@.remove(source).insert(source, (seqno, metric)) =~= old(
                        self,
                    )@.insert(source, (seqno, metric)));
                }
                self.entries.push((source, (seqno, metric)));
            },
            None => {
                proof {
                    lemma_map_of_pairs_push(self.entries@, (source, (seqno, metric)));
                }
                self.entries.push((source, (seqno, metric)));
            },
        }
        true
    }

    /// Drop the records whose source the predicate rejects: garbage
    /// collection for origins no longer referenced by any live route.
    pub fn prune<F: Fn(SourceKey) -> bool>(&mut self, f: F)
        requires
            old(self).wf(),
            forall|k: SourceKey| #[trigger] f.requires((k,)),
        ensures
            final(self).wf(),
            forall|k: SourceKey|
                #[trigger] final(self)@.contains_key(k) ==> old(self)@.contains_key(k)
                    && final(self)@[k] == old(self)@[k] && f.ensures((k,), true),
            forall|k: SourceKey|
                old(self)@.contains_key(k) && !(#[trigger] final(self)@.contains_key(k))
                    ==> f.ensures((k,), false),
    {
        let ghost orig = self.entries@;
        proof {
            lemma_map_of_pairs(orig);
        }
        let mut kept: Vec<(SourceKey, (SeqNo, Metric))> = Vec::new();
        let mut i: usize = 0;
        while i < self.entries.len()
            invariant
                self.entries@ == orig,
                pairs_unique(orig),
                i <= orig.len(),
                pairs_unique(kept@),
                forall|j: int|
                    0 <= j < kept@.len() ==> exists|j0: int|
                        0 <= j0 < i && orig[j0] == #[trigger] kept@[j],
                forall|j0: int|
                    0 <= j0 < i ==> (exists|j: int| 0 <= j < kept@.len() && kept@[j] == orig[j0])
                        || f.ensures(((#[trigger] orig[j0]).0,), false),
                forall|j0: int|
                    0 <= j0 < i && (exists|j: int| 0 <= j < kept@.len() && kept@[j] == orig[j0])
                        ==> f.ensures(((#[trigger] orig[j0]).0,), true),
                forall|k: SourceKey| #[trigger] f.requires((k,)),
            decreases orig.len() - i,
        {
            let (key, dist) = self.entries[i];
            if f(key) {
                proof {
                    assert forall|j: int| 0 <= j < kept@.len() implies (#[trigger] kept@[j]).0
                        != key by {
                        let j0 = choose|j0: int| 0 <= j0 < i && orig[j0] == kept@[j];
                        if kept@[j].0 == key {
                            assert(orig[j0].0 == orig[i as int].0);
                        }
                    }
                    lemma_map_of_pairs_push(kept@, (key, dist));
                }
                let ghost kept0 = kept@;
                kept.push((key, dist));
                proof {
                    assert(kept@[kept@.len() - 1] == orig[i as int]);
                    assert forall|j0: int|
                        0 <= j0 < i + 1 implies (exists|j: int|
                        0 <= j < kept@.len() && kept@[j] == orig[j0]) || f.ensures(
                        ((#[trigger] orig[j0]).0,),
                        false,
                    ) by {
                        if j0 == i {
                            assert(kept@[kept@.len() - 1] == orig[j0]);
                        } else if exists|j: int| 0 <= j < kept0.len() && kept0[j] == orig[j0] {
                            let j = choose|j: int| 0 <= j < kept0.len() && kept0[j] == orig[j0];
                            assert(kept@[j] == orig[j0]);
                        }
                    }
                    assert forall|j0: int|
                        0 <= j0 < i + 1 && (exists|j: int|
                        0 <= j < kept@.len() && kept@[j] == orig[j0]) implies f.ensures(
                        ((#[trigger] orig[j0]).0,),
                        true,
                    ) by {
                        if j0 < i {
                            let j = choose|j: int| 0 <= j < kept@.len() && kept@[j] == orig[j0];
                            if j < kept0.len() {
                                assert(kept0[j] == orig[j0]);
                            } else {
                                assert(kept@[j] == orig[i as int]);
                                assert(orig[j0].0 == orig[i as int].0);
                            }
                        }
                    }
                }
            } else {
                proof {
                    assert(f.ensures((orig[i as int].0,), false));
                    assert forall|j0: int|
                        0 <= j0 < i + 1 implies (exists|j: int|
                        0 <= j < kept@.len() && kept@[j] == orig[j0]) || f.ensures(
                        ((#[trigger] orig[j0]).0,),
                        false,
                    ) by {}
                }
            }
            i = i + 1;
        }
        proof {
            lemma_map_of_pairs(kept@);
        }
        self.entries = kept;
        proof {
            assert forall|k: SourceKey| #[trigger] self@.contains_key(k) implies old(
                self,
            )@.contains_key(k) && self@[k] == old(self)@[k] && f.ensures((k,), true) by {
                let j = choose|j: int| 0 <= j < kept@.len() && (#[trigger] kept@[j]).0 == k;
                let j0 = choose|j0: int| 0 <= j0 < orig.len() && orig[j0] == kept@[j];
                assert(old(self)@.contains_key(k) && old(self)@[k] == orig[j0].1);
                assert(self@[k] == kept@[j].1);
            }
            assert forall|k: SourceKey|
                old(self)@.contains_key(k) && !(#[trigger] self@.contains_key(k)) implies f.ensures(
                (k,),
                false,
            ) by {
                let j0 = choose|j0: int| 0 <= j0 < orig.len() && (#[trigger] orig[j0]).0 == k;
                if exists|j: int| 0 <= j < kept@.len() && kept@[j] == orig[j0] {
                    let j = choose|j: int| 0 <= j < kept@.len() && kept@[j] == orig[j0];
                    assert(kept@[j].0 == k);
                }
            }
        }
    }
}

/// Once a distance is recorded for a source, a metric-only improvement of
/// that record never makes a previously excluded advertisement acceptable
/// or selectable: lowering the stored metric at the same seqno only
/// tightens both checks.
pub proof fn lemma_feasibility_monotone_metric(
    st: Map<SourceKey, (SeqNo, Metric)>,
    source: SourceKey,
    new_metric: Metric,
    adv_seqno: SeqNo,
    adv_metric: Metric,
)
    requires
        st.contains_key(source),
        new_metric.value <= st[source].1.value,
        !feasible_for_selection(st, source, adv_seqno, adv_metric),
    ensures
        !feasible(
            st.insert(source, (st[source].0, new_metric)),
            source,
            adv_seqno,
            adv_metric,
        ),
        !feasible_for_selection(
            st.insert(source, (st[source].0, new_metric)),
            source,
            adv_seqno,
            adv_metric,
        ),
{
}

/// A seqno-raising improvement of the record keeps a previously
/// infeasible advertisement infeasible, provided the advertised seqno does
/// not leap past the new seqno on the wraparound circle (`adv_seqno` not
/// newer than `new_seqno`): the advertisement can then neither beat the
/// new seqno nor tie it.
pub proof fn lemma_feasibility_monotone_seqno(
    st: Map<SourceKey, (SeqNo, Metric)>,
    source: SourceKey,
    new_seqno: SeqNo,
    new_metric: Metric,
    adv_seqno: SeqNo,
    adv_metric: Metric,
)
    requires
        st.contains_key(source),
        seqno_newer(new_seqno.value, st[source].0.value),
        !feasible_for_selection(st, source, adv_seqno, adv_metric),
        !seqno_newer(adv_seqno.value, new_seqno.value),
    ensures
        !feasible(st.insert(source, (new_seqno, new_metric)), source, adv_seqno, adv_metric),
        !feasible_for_selection(
            st.insert(source, (new_seqno, new_metric)),
            source,
            adv_seqno,
            adv_metric,
        ),
{
    if adv_seqno.value == new_seqno.value {
        assert(seqno_newer(adv_seqno.value, st[source].0.value));
    }
}

} // verus!
