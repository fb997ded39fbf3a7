//! Association-list reasoning shared by the routing and source tables.
//!
//! Both tables store their entries as a vector of key/value pairs with
//! pairwise-distinct keys, and state their contracts over the finite map
//! that the pairs denote. The lemmas here connect the two views: what a
//! scan of the pairs finds is what the map holds, and the push, removal
//! and in-place update of a pair act on the map as insert and remove do.

use vstd::prelude::*;

verus! {

/// The keys of the pairs are pairwise distinct.
pub open spec fn pairs_unique<K, V>(s: Seq<(K, V)>) -> bool {
    forall|i: int, j: int| 0 <= i < j < s.len() ==> (#[trigger] s[i]).0 != (#[trigger] s[j]).0
}

/// The finite map denoted by a sequence of key/value pairs; on duplicate
/// keys the later pair wins, so that under `pairs_unique` the map and the
/// sequence hold exactly the same associations.
pub open spec fn map_of_pairs<K, V>(s: Seq<(K, V)>) -> Map<K, V>
    decreases s.len(),
{
    if s.len() == 0 {
        Map::empty()
    } else {
        map_of_pairs(s.drop_last()).insert(s.last().0, s.last().1)
    }
}

/// Under distinct keys, the map and the sequence agree: a key is in the
/// map exactly when some pair carries it, and it maps to that pair's value.
pub proof fn lemma_map_of_pairs<K, V>(s: Seq<(K, V)>)
    requires
        pairs_unique(s),
    ensures
        forall|k: K|
            #[trigger] map_of_pairs(s).contains_key(k) <==> exists|i: int|
                0 <= i < s.len() && (#[trigger] s[i]).0 == k,
        forall|i: int|
            0 <= i < s.len() ==> map_of_pairs(s).contains_key((#[trigger] s[i]).0)
                && map_of_pairs(s)[s[i].0] == s[i].1,
    decreases s.len(),
{
    if s.len() > 0 {
        let t = s.drop_last();
        lemma_map_of_pairs(t);
        assert forall|k: K| #[trigger] map_of_pairs(s).contains_key(k) implies exists|i: int|
            0 <= i < s.len() && (#[trigger] s[i]).0 == k by {
            if k == s.last().0 {
                assert(s[s.len() - 1].0 == k);
            } else {
                assert(map_of_pairs(t).contains_key(k));
                let i = choose|i: int| 0 <= i < t.len() && (#[trigger] t[i]).0 == k;
                assert(t[i] == s[i]);
                assert(s[i].0 == k);
            }
        }
        assert forall|i: int| 0 <= i < s.len() implies map_of_pairs(s).contains_key(
            (#[trigger] s[i]).0,
        ) && map_of_pairs(s)[s[i].0] == s[i].1 by {
            if i < s.len() - 1 {
                assert(t[i] == s[i]);
                assert(s[i].0 != s.last().0);
            }
        }
    }
}

/// Appending a pair with a fresh key inserts it into the map and keeps the
/// keys distinct.
pub proof fn lemma_map_of_pairs_push<K, V>(s: Seq<(K, V)>, p: (K, V))
    requires
        pairs_unique(s),
        forall|i: int| 0 <= i < s.len() ==> (#[trigger] s[i]).0 != p.0,
    ensures
        pairs_unique(s.push(p)),
        map_of_pairs(s.push(p)) == map_of_pairs(s).insert(p.0, p.1),
{
    let e = s.push(p);
    assert(e.drop_last() =~= s);
    assert(e.last() == p);
    assert forall|i: int, j: int| 0 <= i < j < e.len() implies (#[trigger] e[i]).0 != (
    #[trigger] e[j]).0 by {
        if j < s.len() {
            assert(s[i].0 != s[j].0);
        } else {
            assert(e[j] == p);
            assert(s[i].0 != p.0);
        }
    }
}

/// Removing the pair at a position removes its key from the map and keeps
/// the remaining keys distinct.
pub proof fn lemma_map_of_pairs_remove<K, V>(s: Seq<(K, V)>, i: int)
    requires
        pairs_unique(s),
        0 <= i < s.len(),
    ensures
        pairs_unique(s.remove(i)),
        map_of_pairs(s.remove(i)) == map_of_pairs(s).remove(s[i].0),
    decreases s.len(),
{
    lemma_map_of_pairs(s);
    let r = s.remove(i);
    assert forall|x: int, y: int| 0 <= x < y < r.len() implies (#[trigger] r[x]).0 != (
    #[trigger] r[y]).0 by {
        let x0 = if x < i { x } else { x + 1 };
        let y0 = if y < i { y } else { y + 1 };
        assert(r[x] == s[x0] && r[y] == s[y0]);
    }
    if i == s.len() - 1 {
        assert(r =~= s.drop_last());
        lemma_map_of_pairs(r);
        assert(!map_of_pairs(r).contains_key(s[i].0)) by {
            if map_of_pairs(r).contains_key(s[i].0) {
                let j = choose|j: int| 0 <= j < r.len() && (#[trigger] r[j]).0 == s[i].0;
                assert(s[j].0 == s[i].0);
            }
        }
        assert(map_of_pairs(r) =~= map_of_pairs(s).remove(s[i].0));
    } else {
        let t = s.drop_last();
        lemma_map_of_pairs_remove(t, i);
        assert(r.drop_last() =~= t.remove(i));
        assert(r.last() == s.last());
        assert(map_of_pairs(r) == map_of_pairs(t.remove(i)).insert(s.last().0, s.last().1));
        assert(s[i].0 != s.last().0);
        assert(map_of_pairs(t).remove(s[i].0).insert(s.last().0, s.last().1) =~= map_of_pairs(
            t,
        ).insert(s.last().0, s.last().1).remove(s[i].0));
    }
}

/// Replacing the value of the pair at a position, keeping its key, updates
/// that key's association and nothing else.
pub proof fn lemma_map_of_pairs_update<K, V>(s: Seq<(K, V)>, i: int, v: V)
    requires
        pairs_unique(s),
        0 <= i < s.len(),
    ensures
        pairs_unique(s.update(i, (s[i].0, v))),
        map_of_pairs(s.update(i, (s[i].0, v))) == map_of_pairs(s).insert(s[i].0, v),
    decreases s.len(),
{
    let u = s.update(i, (s[i].0, v));
    assert forall|x: int, y: int| 0 <= x < y < u.len() implies (#[trigger] u[x]).0 != (
    #[trigger] u[y]).0 by {
        assert(u[x].0 == s[x].0 && u[y].0 == s[y].0);
        assert(s[x].0 != s[y].0);
    }
    if i == s.len() - 1 {
        assert(u.drop_last() =~= s.drop_last());
        assert(u.last() == (s[i].0, v));
        assert(map_of_pairs(u) == map_of_pairs(s.drop_last()).insert(s[i].0, v));
        assert(map_of_pairs(s.drop_last()).insert(s[i].0, v) =~= map_of_pairs(s).insert(
            s[i].0,
            v,
        ));
    } else {
        let t = s.drop_last();
        lemma_map_of_pairs_update(t, i, v);
        assert(u.drop_last() =~= t.update(i, (t[i].0, v)));
        assert(u.last() == s.last());
        assert(t[i] == s[i]);
        assert(map_of_pairs(u) == map_of_pairs(t).insert(s[i].0, v).insert(
            s.last().0,
            s.last().1,
        ));
        assert(s[i].0 != s.last().0);
        assert(map_of_pairs(t).insert(s[i].0, v).insert(s.last().0, s.last().1) =~= map_of_pairs(
            t,
        ).insert(s.last().0, s.last().1).insert(s[i].0, v));
    }
}

} // verus!
