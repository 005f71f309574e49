//! The tracker as a mathematical object.
//!
//! A tracker is a capacity and a map from file size to the paths seen with
//! that size. This file says what one observation does to it, what a whole
//! run of observations does, and which sizes count as the largest of a run.

use vstd::prelude::*;

verus! {

/// What a tracker holds: the most distinct sizes it may retain, and the
/// retained size groups, each a size with its paths in discovery order.
pub struct TrackerState {
    pub capacity: nat,
    pub groups: Map<usize, Seq<Seq<char>>>,
}

impl TrackerState {
    /// The tracker that has seen nothing.
    pub open spec fn empty(capacity: nat) -> TrackerState {
        TrackerState { capacity, groups: Map::empty() }
    }

    /// How many distinct sizes are retained.
    pub open spec fn distinct_count(self) -> nat {
        self.groups.dom().len()
    }

    /// Whether `size` is retained and no retained size is smaller.
    pub open spec fn is_floor(self, size: usize) -> bool {
        &&& self.groups.contains_key(size)
        &&& forall|k: usize| self.groups.contains_key(k) ==> size <= k
    }

    /// The smallest retained size; meaningful only while something is
    /// retained.
    pub open spec fn floor(self) -> usize {
        choose|size: usize| self.is_floor(size)
    }

    /// The state is in order: finitely many groups, no more than the
    /// capacity allows, and none of them without a path.
    pub open spec fn wf(self) -> bool {
        &&& self.groups.dom().finite()
        &&& self.distinct_count() <= self.capacity
        &&& forall|k: usize| self.groups.contains_key(k) ==> (#[trigger] self.groups[k]).len() > 0
    }

    /// The same tracker with other groups.
    pub open spec fn with_groups(self, groups: Map<usize, Seq<Seq<char>>>) -> TrackerState {
        TrackerState { capacity: self.capacity, groups }
    }

    /// The tracker after one more file.
    ///
    /// A path whose size is already retained joins that group. A new size
    /// is admitted while there is room. Without room, a size below the floor
    /// is dropped; any other new size takes the place of the whole floor
    /// group. A tracker of capacity zero retains nothing at all.
    pub open spec fn add(self, size: usize, path: Seq<char>) -> TrackerState {
        if self.capacity == 0 {
            self
        } else if self.groups.contains_key(size) {
            self.with_groups(self.groups.insert(size, self.groups[size].push(path)))
        } else if self.distinct_count() < self.capacity {
            self.with_groups(self.groups.insert(size, seq![path]))
        } else if size < self.floor() {
            self
        } else {
            self.with_groups(self.groups.remove(self.floor()).insert(size, seq![path]))
        }
    }

    /// The tracker after a run of files, taken front to back.
    pub open spec fn feed(self, inputs: Seq<(usize, Seq<char>)>) -> TrackerState
        decreases inputs.len(),
    {
        if inputs.len() == 0 {
            self
        } else {
            self.feed(inputs.drop_last()).add(inputs.last().0, inputs.last().1)
        }
    }
}

/// The distinct sizes that occur in a run.
pub open spec fn sizes(inputs: Seq<(usize, Seq<char>)>) -> Set<usize> {
    Set::new(|s: usize| exists|i: int| 0 <= i < inputs.len() && (#[trigger] inputs[i]).0 == s)
}

/// The distinct sizes of a run that exceed `size`.
pub open spec fn larger_sizes(inputs: Seq<(usize, Seq<char>)>, size: usize) -> Set<usize> {
    sizes(inputs).filter(|s: usize| s > size)
}

/// Whether `size` is one of the `n` largest distinct sizes of a run: it
/// occurs, and fewer than `n` distinct sizes exceed it.
pub open spec fn among_largest(inputs: Seq<(usize, Seq<char>)>, n: nat, size: usize) -> bool {
    sizes(inputs).contains(size) && larger_sizes(inputs, size).len() < n
}

/// The test that a file has the size `size`.
pub open spec fn has_size(size: usize) -> spec_fn((usize, Seq<char>)) -> bool {
    |o: (usize, Seq<char>)| o.0 == size
}

/// The paths of a run that have the size `size`, in the order of the run.
pub open spec fn paths_of_size(inputs: Seq<(usize, Seq<char>)>, size: usize) -> Seq<Seq<char>> {
    inputs.filter(has_size(size)).map_values(|o: (usize, Seq<char>)| o.1)
}

/// The `n` largest distinct sizes of a run, each with all of its paths.
pub open spec fn largest_groups(inputs: Seq<(usize, Seq<char>)>, n: nat) -> Map<
    usize,
    Seq<Seq<char>>,
> {
    Map::new(|s: usize| among_largest(inputs, n, s), |s: usize| paths_of_size(inputs, s))
}

/// Whether `listing` sets out the groups of `groups` by ascending size: each
/// entry is a group of the map, every group of the map is an entry, and the
/// sizes strictly ascend.
pub open spec fn is_listing(
    listing: Seq<(usize, Seq<Seq<char>>)>,
    groups: Map<usize, Seq<Seq<char>>>,
) -> bool {
    &&& forall|i: int, j: int|
        0 <= i < j < listing.len() ==> (#[trigger] listing[i]).0 < (#[trigger] listing[j]).0
    &&& forall|i: int|
        0 <= i < listing.len() ==> groups.contains_key((#[trigger] listing[i]).0)
            && groups[listing[i].0] == listing[i].1
    &&& forall|k: usize| #[trigger]
        groups.contains_key(k) ==> exists|i: int|
            0 <= i < listing.len() && (#[trigger] listing[i]).0 == k
}

} // verus!
