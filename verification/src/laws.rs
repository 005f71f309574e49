//! What holds of the tracker whatever it is fed.

use crate::model::{
    among_largest, has_size, is_listing, largest_groups, larger_sizes, paths_of_size, sizes,
    TrackerState,
};
use vstd::prelude::*;
use vstd::set_lib::lemma_len_subset;

verus! {

/// A finite set of sizes that is not empty has a least member.
proof fn lemma_least_size(s: Set<usize>)
    requires
        s.finite(),
        s.len() > 0,
    ensures
        exists|m: usize| s.contains(m) && forall|k: usize| s.contains(k) ==> m <= k,
    decreases s.len(),
{
    let x = s.choose();
    let rest = s.remove(x);
    if rest.len() == 0 {
        rest.lemma_len0_is_empty();
        assert forall|k: usize| s.contains(k) implies x <= k by {
            if k != x {
                assert(rest.contains(k));
            }
        }
    } else {
        lemma_least_size(rest);
        let r = choose|m: usize| rest.contains(m) && forall|k: usize| rest.contains(k) ==> m <= k;
        let m = if x < r { x } else { r };
        assert forall|k: usize| s.contains(k) implies m <= k by {
            if k != x {
                assert(rest.contains(k));
            }
        }
        assert(s.contains(m));
    }
}

/// While anything is retained, the floor is a retained size and the least
/// of them.
pub proof fn lemma_floor_is_least(t: TrackerState)
    requires
        t.groups.dom().finite(),
        t.distinct_count() > 0,
    ensures
        t.is_floor(t.floor()),
{
    lemma_least_size(t.groups.dom());
    let m = choose|m: usize|
        t.groups.dom().contains(m) && forall|k: usize| t.groups.dom().contains(k) ==> m <= k;
    assert(t.is_floor(m));
}

/// One more file leaves the tracker in order: in particular it never
/// retains more distinct sizes than its capacity.
pub proof fn lemma_add_keeps_order(t: TrackerState, size: usize, path: Seq<char>)
    requires
        t.wf(),
    ensures
        t.add(size, path).wf(),
        t.add(size, path).capacity == t.capacity,
        t.add(size, path).distinct_count() <= t.capacity,
{
    let next = t.add(size, path);
    if t.capacity == 0 {
    } else if t.groups.contains_key(size) {
        assert(next.groups.dom() =~= t.groups.dom());
    } else if t.distinct_count() < t.capacity {
    } else if size < t.floor() {
    } else {
        lemma_floor_is_least(t);
        assert(t.groups.dom().contains(t.floor()));
    }
}

/// However many files are fed to a new tracker, it stays in order and
/// within its capacity.
pub proof fn lemma_feed_keeps_order(capacity: nat, inputs: Seq<(usize, Seq<char>)>)
    ensures
        TrackerState::empty(capacity).feed(inputs).wf(),
        TrackerState::empty(capacity).feed(inputs).capacity == capacity,
        TrackerState::empty(capacity).feed(inputs).distinct_count() <= capacity,
    decreases inputs.len(),
{
    if inputs.len() > 0 {
        lemma_feed_keeps_order(capacity, inputs.drop_last());
        lemma_add_keeps_order(
            TrackerState::empty(capacity).feed(inputs.drop_last()),
            inputs.last().0,
            inputs.last().1,
        );
    }
}

/// One more file changes at most two groups, and each as a whole: the group
/// of the file's own size gains the path or is begun with it, the floor
/// group may vanish, and every other group stays as it was. No group is
/// ever left with a part of its paths.
pub proof fn lemma_add_keeps_groups_whole(t: TrackerState, size: usize, path: Seq<char>, k: usize)
    requires
        t.wf(),
    ensures
        t.add(size, path).groups.contains_key(k) && k != size ==> t.groups.contains_key(k)
            && t.add(size, path).groups[k] == t.groups[k],
        t.add(size, path).groups.contains_key(size) ==> t.add(size, path).groups[size] == (
        if t.groups.contains_key(size) {
            t.groups[size].push(path)
        } else {
            seq![path]
        }),
        t.groups.contains_key(k) && !t.add(size, path).groups.contains_key(k) ==> k == t.floor()
            && k < size && !t.groups.contains_key(size) && t.distinct_count() == t.capacity,
{
    if t.capacity > 0 && !t.groups.contains_key(size) && t.distinct_count() >= t.capacity {
        lemma_floor_is_least(t);
    }
}

/// The sizes of a run with one more file are those of the run and the new
/// file's size.
proof fn lemma_sizes_push(inputs: Seq<(usize, Seq<char>)>, size: usize, path: Seq<char>)
    ensures
        sizes(inputs.push((size, path))) == sizes(inputs).insert(size),
{
    let more = inputs.push((size, path));
    assert forall|s: usize| sizes(more).contains(s) <==> sizes(inputs).insert(size).contains(
        s,
    ) by {
        if sizes(more).contains(s) {
            let i = choose|i: int| 0 <= i < more.len() && (#[trigger] more[i]).0 == s;
            if i < inputs.len() {
                assert(inputs[i].0 == s);
            }
        }
        if sizes(inputs).contains(s) {
            let i = choose|i: int| 0 <= i < inputs.len() && (#[trigger] inputs[i]).0 == s;
            assert(more[i].0 == s);
        }
        if s == size {
            assert(more[inputs.len() as int].0 == s);
        }
    }
    assert(sizes(more) =~= sizes(inputs).insert(size));
}

/// A run has finitely many distinct sizes.
proof fn lemma_sizes_finite(inputs: Seq<(usize, Seq<char>)>)
    ensures
        sizes(inputs).finite(),
    decreases inputs.len(),
{
    if inputs.len() == 0 {
        assert(sizes(inputs) =~= Set::<usize>::empty());
    } else {
        lemma_sizes_finite(inputs.drop_last());
        lemma_sizes_push(inputs.drop_last(), inputs.last().0, inputs.last().1);
        assert(inputs.drop_last().push(inputs.last()) =~= inputs);
    }
}

/// One more file adds its path to the paths of its own size and to no
/// others.
proof fn lemma_paths_push(
    inputs: Seq<(usize, Seq<char>)>,
    size: usize,
    path: Seq<char>,
    k: usize,
)
    ensures
        paths_of_size(inputs.push((size, path)), k) == if k == size {
            paths_of_size(inputs, k).push(path)
        } else {
            paths_of_size(inputs, k)
        },
{
    inputs.lemma_filter_push((size, path), has_size(k));
    assert(paths_of_size(inputs.push((size, path)), k) =~= if k == size {
        paths_of_size(inputs, k).push(path)
    } else {
        paths_of_size(inputs, k)
    });
}

/// A size that does not occur in a run has no paths there.
proof fn lemma_paths_of_absent_size(inputs: Seq<(usize, Seq<char>)>, k: usize)
    requires
        !sizes(inputs).contains(k),
    ensures
        paths_of_size(inputs, k) == Seq::<Seq<char>>::empty(),
    decreases inputs.len(),
{
    if inputs.len() == 0 {
        reveal(Seq::filter);
        assert(paths_of_size(inputs, k) =~= Seq::<Seq<char>>::empty());
    } else {
        let front = inputs.drop_last();
        let last = inputs.last();
        assert(front.push(last) =~= inputs);
        lemma_sizes_push(front, last.0, last.1);
        lemma_paths_of_absent_size(front, k);
        lemma_paths_push(front, last.0, last.1, k);
    }
}

/// The tracker `t` holds what a run calls for: its groups are sizes of the
/// run with all their paths, no size of the run exceeds a retained one
/// without being retained itself, and room is left only when every size of
/// the run is retained.
spec fn follows(t: TrackerState, inputs: Seq<(usize, Seq<char>)>) -> bool {
    &&& t.wf()
    &&& forall|k: usize| #[trigger]
        t.groups.contains_key(k) ==> sizes(inputs).contains(k) && t.groups[k] == paths_of_size(
            inputs,
            k,
        )
    &&& forall|k: usize, s: usize|
        #![trigger t.groups.contains_key(k), sizes(inputs).contains(s)]
        t.groups.contains_key(k) && sizes(inputs).contains(s) && s > k ==> t.groups.contains_key(s)
    &&& t.distinct_count() < t.capacity ==> forall|s: usize| #[trigger]
        sizes(inputs).contains(s) ==> t.groups.contains_key(s)
}

/// A tracker that holds what a run calls for still does so after one more
/// file.
proof fn lemma_add_follows(
    t: TrackerState,
    inputs: Seq<(usize, Seq<char>)>,
    size: usize,
    path: Seq<char>,
)
    requires
        follows(t, inputs),
    ensures
        follows(t.add(size, path), inputs.push((size, path))),
{
    let next = t.add(size, path);
    let more = inputs.push((size, path));
    lemma_add_keeps_order(t, size, path);
    lemma_sizes_push(inputs, size, path);
    assert forall|k: usize| true implies #[trigger] paths_of_size(more, k) == if k == size {
        paths_of_size(inputs, k).push(path)
    } else {
        paths_of_size(inputs, k)
    } by {
        lemma_paths_push(inputs, size, path, k);
    }
    if t.capacity == 0 {
        t.groups.dom().lemma_len0_is_empty();
        assert(!t.groups.dom().contains(size));
        assert forall|k: usize| !t.groups.contains_key(k) by {
            assert(!t.groups.dom().contains(k));
        }
    } else if t.groups.contains_key(size) {
        assert(next.groups.dom() =~= t.groups.dom());
        assert(sizes(more) =~= sizes(inputs));
    } else if t.distinct_count() < t.capacity {
        assert(!sizes(inputs).contains(size));
        lemma_paths_of_absent_size(inputs, size);
        assert(paths_of_size(more, size) =~= seq![path]);
    } else {
        lemma_floor_is_least(t);
        let floor = t.floor();
        if size < floor {
        } else {
            assert(size > floor);
            if sizes(inputs).contains(size) {
                assert(t.groups.contains_key(size));
            }
            lemma_paths_of_absent_size(inputs, size);
            assert(paths_of_size(more, size) =~= seq![path]);
            assert(next.groups.dom() =~= t.groups.dom().remove(floor).insert(size));
        }
    }
}

/// A new tracker fed a run holds what the run calls for.
proof fn lemma_feed_follows(capacity: nat, inputs: Seq<(usize, Seq<char>)>)
    ensures
        follows(TrackerState::empty(capacity).feed(inputs), inputs),
    decreases inputs.len(),
{
    if inputs.len() == 0 {
        assert(TrackerState::empty(capacity).groups.dom() =~= Set::<usize>::empty());
    } else {
        let front = inputs.drop_last();
        lemma_feed_follows(capacity, front);
        lemma_add_follows(
            TrackerState::empty(capacity).feed(front),
            front,
            inputs.last().0,
            inputs.last().1,
        );
        assert(front.push(inputs.last()) =~= inputs);
    }
}

/// A tracker that holds what a run calls for retains exactly the largest
/// sizes of the run.
proof fn lemma_follows_is_largest(t: TrackerState, inputs: Seq<(usize, Seq<char>)>)
    requires
        follows(t, inputs),
    ensures
        t.groups == largest_groups(inputs, t.capacity),
{
    let dom = t.groups.dom();
    lemma_sizes_finite(inputs);
    assert forall|s: usize| t.groups.contains_key(s) <==> among_largest(
        inputs,
        t.capacity,
        s,
    ) by {
        let above = larger_sizes(inputs, s);
        if t.groups.contains_key(s) {
            assert forall|u: usize| above.contains(u) implies dom.remove(s).contains(u) by {
                assert(sizes(inputs).contains(u) && u > s);
                assert(t.groups.contains_key(u));
            }
            lemma_len_subset(above, dom.remove(s));
        } else if sizes(inputs).contains(s) {
            assert(dom.len() == t.capacity);
            assert forall|u: usize| dom.contains(u) implies above.contains(u) by {
                assert(t.groups.contains_key(u));
                assert(sizes(inputs).contains(u));
                if u < s {
                    assert(t.groups.contains_key(s));
                }
            }
            lemma_len_subset(above, sizes(inputs));
            lemma_len_subset(dom, above);
        }
    }
    assert(t.groups =~= largest_groups(inputs, t.capacity));
}

/// Whatever run of files a new tracker of capacity `capacity` is fed, in
/// whatever order, it ends up retaining exactly the `capacity` largest
/// distinct sizes of the run, and with each of them every path of that
/// size, once each, in the order of the run.
pub proof fn lemma_feed_retains_largest(capacity: nat, inputs: Seq<(usize, Seq<char>)>)
    ensures
        TrackerState::empty(capacity).feed(inputs).groups == largest_groups(inputs, capacity),
{
    lemma_feed_follows(capacity, inputs);
    lemma_feed_keeps_order(capacity, inputs);
    lemma_follows_is_largest(TrackerState::empty(capacity).feed(inputs), inputs);
}

/// A listing without its last entry lists the groups without that entry's
/// size.
proof fn lemma_listing_without_last(
    groups: Map<usize, Seq<Seq<char>>>,
    listing: Seq<(usize, Seq<Seq<char>>)>,
)
    requires
        is_listing(listing, groups),
        listing.len() > 0,
    ensures
        is_listing(listing.drop_last(), groups.remove(listing.last().0)),
{
    let front = listing.drop_last();
    let rest = groups.remove(listing.last().0);
    assert forall|i: int| 0 <= i < front.len() implies rest.contains_key((#[trigger] front[i]).0)
        && rest[front[i].0] == front[i].1 by {
        assert(front[i] == listing[i]);
        assert(listing[i].0 < listing[listing.len() - 1].0);
    }
    assert forall|k: usize| #[trigger] rest.contains_key(k) implies exists|i: int|
        0 <= i < front.len() && (#[trigger] front[i]).0 == k by {
        assert(groups.contains_key(k));
        let i = choose|i: int| 0 <= i < listing.len() && (#[trigger] listing[i]).0 == k;
        assert(front[i].0 == k);
    }
}

/// Two listings of the same groups are the same listing: what a read
/// returns is fixed by the tracker's state.
pub proof fn lemma_listing_is_unique(
    groups: Map<usize, Seq<Seq<char>>>,
    a: Seq<(usize, Seq<Seq<char>>)>,
    b: Seq<(usize, Seq<Seq<char>>)>,
)
    requires
        is_listing(a, groups),
        is_listing(b, groups),
    ensures
        a == b,
    decreases a.len(),
{
    if a.len() == 0 {
        if b.len() > 0 {
            assert(groups.contains_key(b[0].0));
        }
        assert(a =~= b);
    } else {
        assert(groups.contains_key(a.last().0));
        assert(b.len() > 0);
        assert(groups.contains_key(b.last().0));
        let top = a.last().0;
        let ib = choose|i: int| 0 <= i < b.len() && (#[trigger] b[i]).0 == top;
        let ia = choose|i: int| 0 <= i < a.len() && (#[trigger] a[i]).0 == b.last().0;
        assert(b[ib].0 == top && a[ia].0 == b.last().0);
        assert(b.last().0 == top) by {
            if ib < b.len() - 1 {
                assert(b[ib].0 < b[b.len() - 1].0);
            }
            if ia < a.len() - 1 {
                assert(a[ia].0 < a[a.len() - 1].0);
            }
        }
        let rest = groups.remove(top);
        let fa = a.drop_last();
        let fb = b.drop_last();
        lemma_listing_without_last(groups, a);
        lemma_listing_without_last(groups, b);
        lemma_listing_is_unique(rest, fa, fb);
        assert(a.last() == b.last());
        assert(a =~= fa.push(a.last()));
        assert(b =~= fb.push(b.last()));
    }
}

} // verus!
