//! From stored pairs to size groups.
//!
//! The map stores its pairs as a sequence with ascending keys. This file
//! reads such a sequence as the mathematical map that the tracker's model
//! speaks of, and proves how a change to the sequence changes that map.

use crate::model::TrackerState;
use crate::store::{ascending, has_key, slot_for};
use vstd::prelude::*;

verus! {

/// The paths of a group as character sequences.
pub open spec fn paths_view(paths: Seq<String>) -> Seq<Seq<char>> {
    paths.map_values(|p: String| p@)
}

/// An index of `e` at which the key `key` stands, if it stands anywhere.
pub open spec fn index_of_key(e: Seq<(usize, Seq<String>)>, key: usize) -> int {
    choose|i: int| 0 <= i < e.len() && (#[trigger] e[i]).0 == key
}

/// The stored pairs as a map from size to paths.
pub open spec fn groups_of(e: Seq<(usize, Seq<String>)>) -> Map<usize, Seq<Seq<char>>> {
    Map::new(|k: usize| has_key(e, k), |k: usize| paths_view(e[index_of_key(e, k)].1))
}

/// With ascending keys, each pair is the group of its key.
pub proof fn lemma_group_at(e: Seq<(usize, Seq<String>)>, i: int)
    requires
        ascending(e),
        0 <= i < e.len(),
    ensures
        has_key(e, e[i].0),
        index_of_key(e, e[i].0) == i,
        groups_of(e).contains_key(e[i].0),
        groups_of(e)[e[i].0] == paths_view(e[i].1),
{
    let j = index_of_key(e, e[i].0);
    assert(0 <= j < e.len() && e[j].0 == e[i].0);
    if j < i {
        assert(e[j].0 < e[i].0);
    } else if i < j {
        assert(e[i].0 < e[j].0);
    }
}

/// Replacing the value of one pair replaces that key's group.
pub proof fn lemma_groups_update(e: Seq<(usize, Seq<String>)>, i: int, paths: Seq<String>)
    requires
        ascending(e),
        0 <= i < e.len(),
    ensures
        ascending(e.update(i, (e[i].0, paths))),
        groups_of(e.update(i, (e[i].0, paths))) == groups_of(e).insert(e[i].0, paths_view(paths)),
{
    let key = e[i].0;
    let u = e.update(i, (key, paths));
    assert(ascending(u)) by {
        assert forall|a: int, b: int| 0 <= a < b < u.len() implies (#[trigger] u[a]).0 < (
        #[trigger] u[b]).0 by {
            assert(u[a].0 == e[a].0 && u[b].0 == e[b].0);
        }
    }
    assert forall|k: usize| has_key(u, k) <==> has_key(e, k) by {
        if has_key(u, k) {
            let a = index_of_key(u, k);
            assert(e[a].0 == k);
        }
        if has_key(e, k) {
            let a = index_of_key(e, k);
            assert(u[a].0 == k);
        }
    }
    lemma_group_at(e, i);
    assert forall|k: usize| has_key(u, k) implies #[trigger] groups_of(u)[k] == groups_of(
        e,
    ).insert(key, paths_view(paths))[k] by {
        let a = index_of_key(u, k);
        lemma_group_at(u, a);
        lemma_group_at(e, a);
    }
    assert(groups_of(u) =~= groups_of(e).insert(key, paths_view(paths)));
}

/// Putting a pair with a new key into its slot adds that key's group.
pub proof fn lemma_groups_insert(
    e: Seq<(usize, Seq<String>)>,
    at: int,
    key: usize,
    paths: Seq<String>,
)
    requires
        ascending(e),
        slot_for(e, key, at),
    ensures
        !has_key(e, key),
        ascending(e.insert(at, (key, paths))),
        groups_of(e.insert(at, (key, paths))) == groups_of(e).insert(key, paths_view(paths)),
{
    let u = e.insert(at, (key, paths));
    assert(!has_key(e, key)) by {
        if has_key(e, key) {
            let a = index_of_key(e, key);
            assert(e[a].0 == key);
        }
    }
    assert(ascending(u)) by {
        assert forall|a: int, b: int| 0 <= a < b < u.len() implies (#[trigger] u[a]).0 < (
        #[trigger] u[b]).0 by {
            if a < at {
                assert(u[a] == e[a]);
            } else if a > at {
                assert(u[a] == e[a - 1]);
            }
            if b < at {
                assert(u[b] == e[b]);
            } else if b > at {
                assert(u[b] == e[b - 1]);
            }
        }
    }
    assert(u[at] == (key, paths));
    assert forall|k: usize| has_key(u, k) <==> (has_key(e, k) || k == key) by {
        if has_key(u, k) && k != key {
            let a = index_of_key(u, k);
            if a < at {
                assert(e[a] == u[a]);
            } else {
                assert(e[a - 1] == u[a]);
            }
        }
        if has_key(e, k) {
            let a = index_of_key(e, k);
            if a < at {
                assert(u[a] == e[a]);
            } else {
                assert(u[a + 1] == e[a]);
            }
        }
    }
    assert forall|k: usize| has_key(u, k) implies #[trigger] groups_of(u)[k] == groups_of(
        e,
    ).insert(key, paths_view(paths))[k] by {
        let a = index_of_key(u, k);
        lemma_group_at(u, a);
        if a < at {
            assert(u[a] == e[a]);
            lemma_group_at(e, a);
        } else if a > at {
            assert(u[a] == e[a - 1]);
            lemma_group_at(e, a - 1);
        }
    }
    assert(groups_of(u) =~= groups_of(e).insert(key, paths_view(paths)));
}

/// Taking a pair out takes out that key's group and no other.
pub proof fn lemma_groups_remove(e: Seq<(usize, Seq<String>)>, i: int)
    requires
        ascending(e),
        0 <= i < e.len(),
    ensures
        ascending(e.remove(i)),
        groups_of(e.remove(i)) == groups_of(e).remove(e[i].0),
{
    let key = e[i].0;
    let u = e.remove(i);
    assert forall|a: int| 0 <= a < u.len() implies #[trigger] u[a] == e[if a < i {
        a
    } else {
        a + 1
    }] by {}
    assert(ascending(u)) by {
        assert forall|a: int, b: int| 0 <= a < b < u.len() implies (#[trigger] u[a]).0 < (
        #[trigger] u[b]).0 by {
            let ea = if a < i { a } else { a + 1 };
            let eb = if b < i { b } else { b + 1 };
            assert(u[a] == e[ea] && u[b] == e[eb]);
        }
    }
    assert forall|k: usize| has_key(u, k) <==> (has_key(e, k) && k != key) by {
        if has_key(u, k) {
            let a = index_of_key(u, k);
            let ea = if a < i { a } else { a + 1 };
            assert(u[a] == e[ea]);
            lemma_group_at(e, ea);
            lemma_group_at(e, i);
        }
        if has_key(e, k) && k != key {
            let a = index_of_key(e, k);
            if a < i {
                assert(u[a] == e[a]);
            } else {
                assert(u[a - 1] == e[a]);
            }
        }
    }
    assert forall|k: usize| has_key(u, k) implies #[trigger] groups_of(u)[k] == groups_of(
        e,
    ).remove(key)[k] by {
        let a = index_of_key(u, k);
        let ea = if a < i { a } else { a + 1 };
        assert(u[a] == e[ea]);
        lemma_group_at(u, a);
        lemma_group_at(e, ea);
    }
    assert(groups_of(u) =~= groups_of(e).remove(key));
}

/// With ascending keys there are as many groups as stored pairs.
pub proof fn lemma_groups_count(e: Seq<(usize, Seq<String>)>)
    requires
        ascending(e),
    ensures
        groups_of(e).dom().finite(),
        groups_of(e).dom().len() == e.len(),
    decreases e.len(),
{
    if e.len() == 0 {
        assert(groups_of(e).dom() =~= Set::<usize>::empty());
    } else {
        let last = (e.len() - 1) as int;
        lemma_groups_remove(e, last);
        lemma_group_at(e, last);
        lemma_groups_count(e.remove(last));
        assert(groups_of(e).dom() =~= groups_of(e.remove(last)).dom().insert(e[last].0));
    }
}

/// With ascending keys the first stored key is the floor.
pub proof fn lemma_first_is_floor(e: Seq<(usize, Seq<String>)>, capacity: nat)
    requires
        ascending(e),
        e.len() > 0,
    ensures
        (TrackerState { capacity, groups: groups_of(e) }).is_floor(e[0].0),
        (TrackerState { capacity, groups: groups_of(e) }).floor() == e[0].0,
{
    let t = TrackerState { capacity, groups: groups_of(e) };
    lemma_group_at(e, 0);
    assert forall|k: usize| t.groups.contains_key(k) implies e[0].0 <= k by {
        let a = index_of_key(e, k);
        assert(e[a].0 == k);
        if a > 0 {
            assert(e[0].0 < e[a].0);
        }
    }
    assert(t.is_floor(e[0].0));
    let f = t.floor();
    assert(t.is_floor(f));
}

} // verus!
