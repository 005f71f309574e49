//! The tracker of the largest files.

use crate::grouping::{
    groups_of, index_of_key, lemma_first_is_floor, lemma_group_at, lemma_groups_count,
    lemma_groups_insert, lemma_groups_remove, lemma_groups_update, paths_view,
};
use crate::model::{is_listing, TrackerState};
use crate::store::{
    ascending, empty_map, entries, first_key, group_mut, put_group, slot_for, stored_groups,
    take_group,
};
use litemap::LiteMap;
use vstd::prelude::*;

verus! {

/// The files of one size: the size in bytes and the paths found with it, in
/// discovery order.
#[derive(Debug, PartialEq, Eq)]
pub struct SizeGroup {
    pub size: usize,
    pub paths: Vec<String>,
}

impl View for SizeGroup {
    type V = (usize, Seq<Seq<char>>);

    open spec fn view(&self) -> (usize, Seq<Seq<char>>) {
        (self.size, paths_view(self.paths@))
    }
}

/// A report as the model sees it: each group by its view.
pub open spec fn report_view(groups: Seq<SizeGroup>) -> Seq<(usize, Seq<Seq<char>>)> {
    groups.map_values(|g: SizeGroup| g@)
}

/// A streaming selection of the largest files.
///
/// It is fed one file at a time and retains, at every moment, the files of
/// the largest distinct sizes fed so far, as many sizes as its capacity
/// allows, with every file of each retained size.
pub struct FileSizes {
    /// The retained groups, keyed by size.
    fsmap: LiteMap<usize, Vec<String>>,
    /// The smallest retained size, while anything is retained.
    smallest: usize,
    /// The number of retained sizes.
    numfiles: usize,
    /// The most sizes to retain.
    maxfiles: usize,
}

impl View for FileSizes {
    type V = TrackerState;

    closed spec fn view(&self) -> TrackerState {
        TrackerState { capacity: self.maxfiles as nat, groups: groups_of(entries(self.fsmap)) }
    }
}

impl FileSizes {
    /// The fields agree with each other and with the model.
    pub closed spec fn wf(&self) -> bool {
        &&& ascending(entries(self.fsmap))
        &&& self.numfiles == entries(self.fsmap).len()
        &&& self.numfiles <= self.maxfiles
        &&& self.numfiles > 0 ==> self.smallest == entries(self.fsmap)[0].0
        &&& forall|i: int|
            0 <= i < entries(self.fsmap).len() ==> (#[trigger] entries(self.fsmap)[i]).1.len() > 0
    }

    /// A well-formed tracker has a well-formed model.
    pub proof fn lemma_wf_view(&self)
        requires
            self.wf(),
        ensures
            self@.wf(),
            self@.distinct_count() > 0 ==> self@.is_floor(self@.floor()),
    {
        let e = entries(self.fsmap);
        lemma_groups_count(e);
        assert forall|k: usize| self@.groups.contains_key(k) implies (
        #[trigger] self@.groups[k]).len() > 0 by {
            let i = index_of_key(e, k);
            lemma_group_at(e, i);
        }
        if e.len() > 0 {
            lemma_first_is_floor(e, self.maxfiles as nat);
        }
    }

    /// A tracker that retains up to `maxfiles` distinct sizes and has seen
    /// no file yet.
    pub fn new(maxfiles: usize) -> (tracker: FileSizes)
        ensures
            tracker.wf(),
            tracker@ == TrackerState::empty(maxfiles as nat),
    {
        let tracker = FileSizes { fsmap: empty_map(), smallest: 0, numfiles: 0, maxfiles };
        assert(groups_of(entries(tracker.fsmap)) =~= Map::<usize, Seq<Seq<char>>>::empty());
        tracker
    }

    /// The most distinct sizes this tracker retains.
    pub fn capacity(&self) -> (n: usize)
        ensures
            n == self@.capacity,
    {
        self.maxfiles
    }

    /// How many distinct sizes are retained.
    pub fn distinct_count(&self) -> (n: usize)
        requires
            self.wf(),
        ensures
            n == self@.distinct_count(),
            n <= self@.capacity,
    {
        proof {
            lemma_groups_count(entries(self.fsmap));
        }
        self.numfiles
    }

    /// The smallest retained size, if anything is retained.
    pub fn floor(&self) -> (floor: Option<usize>)
        requires
            self.wf(),
        ensures
            match floor {
                Some(size) => self@.is_floor(size) && size == self@.floor(),
                None => self@.groups == Map::<usize, Seq<Seq<char>>>::empty(),
            },
    {
        proof {
            lemma_groups_count(entries(self.fsmap));
        }
        if self.numfiles > 0 {
            proof {
                lemma_first_is_floor(entries(self.fsmap), self.maxfiles as nat);
            }
            Some(self.smallest)
        } else {
            assert(groups_of(entries(self.fsmap)) =~= Map::<usize, Seq<Seq<char>>>::empty());
            None
        }
    }

    /// The retained groups by ascending size, each with its paths in
    /// discovery order. Reading changes nothing.
    pub fn results(&self) -> (groups: Vec<SizeGroup>)
        requires
            self.wf(),
        ensures
            is_listing(report_view(groups@), self@.groups),
    {
        let pairs = stored_groups(&self.fsmap);
        let ghost e = entries(self.fsmap);
        let mut groups: Vec<SizeGroup> = Vec::new();
        let mut i: usize = 0;
        while i < pairs.len()
            invariant
                0 <= i <= pairs@.len(),
                pairs@.len() == e.len(),
                forall|j: int|
                    0 <= j < pairs@.len() ==> (*(#[trigger] pairs@[j]).0, pairs@[j].1@) == e[j],
                groups@.len() == i,
                forall|j: int|
                    0 <= j < i ==> (#[trigger] groups@[j])@ == (e[j].0, paths_view(e[j].1)),
            decreases pairs@.len() - i,
        {
            let size = *pairs[i].0;
            let paths = pairs[i].1.clone();
            assert(paths@ =~= pairs@[i as int].1@);
            groups.push(SizeGroup { size, paths });
            i += 1;
        }
        proof {
            let listing = report_view(groups@);
            assert forall|j: int| 0 <= j < listing.len() implies self@.groups.contains_key(
                (#[trigger] listing[j]).0,
            ) && self@.groups[listing[j].0] == listing[j].1 by {
                lemma_group_at(e, j);
            }
            assert forall|k: usize| #[trigger] self@.groups.contains_key(k) implies exists|j: int|
                0 <= j < listing.len() && (#[trigger] listing[j]).0 == k by {
                let j = index_of_key(e, k);
                assert(listing[j].0 == k);
            }
        }
        groups
    }

    /// Takes in one file of `sz` bytes at `filename`.
    ///
    /// The file joins the group of its size if that size is retained. A new
    /// size is admitted while there is room; without room it is dropped if
    /// it lies below the floor, and else replaces the whole floor group.
    pub fn add_file(&mut self, sz: usize, filename: &str)
        requires
            old(self).wf(),
        ensures
            final(self).wf(),
            final(self)@ == old(self)@.add(sz, filename@),
            final(self)@.distinct_count() <= final(self)@.capacity,
    {
        proof {
            old(self).lemma_wf_view();
        }
        let ghost before = entries(self.fsmap);
        let ghost capacity = self.maxfiles as nat;
        proof {
            lemma_groups_count(before);
        }
        if self.maxfiles == 0 {
            return ;
        }
        if self.numfiles >= self.maxfiles && sz < self.smallest {
            proof {
                lemma_first_is_floor(before, capacity);
            }
            return ;
        }
        let ghost prior: Seq<String>;
        let ghost joint: Seq<String>;
        let joined = match group_mut(&mut self.fsmap, sz) {
            Some(paths) => {
                let name = filename.to_owned();
                proof {
                    prior = paths@;
                    joint = paths@.push(name);
                }
                paths.push(name);
                true
            },
            None => {
                proof {
                    prior = Seq::empty();
                    joint = Seq::empty();
                }
                false
            },
        };
        if joined {
            proof {
                let i = choose|i: int|
                    0 <= i < before.len() && (#[trigger] before[i]) == (sz, prior) && entries(
                        self.fsmap,
                    ) == before.update(i, (sz, joint));
                lemma_group_at(before, i);
                lemma_groups_update(before, i, joint);
                assert(paths_view(joint) =~= paths_view(prior).push(filename@));
                self.lemma_wf_view();
            }
            return ;
        }
        let mut paths: Vec<String> = Vec::new();
        paths.push(filename.to_owned());
        assert(paths_view(paths@) =~= seq![filename@]);
        let previous = put_group(&mut self.fsmap, sz, paths);
        let ghost grown = entries(self.fsmap);
        let ghost at: int;
        proof {
            if let Some(replaced) = previous {
                let i = choose|i: int|
                    0 <= i < before.len() && (#[trigger] before[i]) == (sz, replaced@);
                assert(before[i].0 == sz);
            }
            at = choose|at: int| #[trigger]
                slot_for(before, sz, at) && grown == before.insert(at, (sz, paths@));
            lemma_groups_insert(before, at, sz, paths@);
            if before.len() > 0 {
                lemma_first_is_floor(before, capacity);
            }
        }
        if self.numfiles < self.maxfiles {
            if self.numfiles == 0 || sz < self.smallest {
                self.smallest = sz;
            }
            self.numfiles += 1;
            proof {
                if at == 0 {
                    assert(grown[0] == (sz, paths@));
                    if before.len() > 0 {
                        assert(before[0].0 > sz);
                    }
                } else {
                    assert(grown[0] == before[0]);
                    assert(before[0].0 < sz);
                }
                assert forall|i: int| 0 <= i < grown.len() implies (#[trigger] grown[i]).1.len()
                    > 0 by {
                    if i < at {
                        assert(grown[i] == before[i]);
                    } else if i > at {
                        assert(grown[i] == before[i - 1]);
                    }
                }
                self.lemma_wf_view();
            }
        } else {
            let evicted = take_group(&mut self.fsmap, self.smallest);
            match first_key(&self.fsmap) {
                Some(k) => {
                    self.smallest = k;
                },
                None => {},
            }
            proof {
                let floor = old(self).smallest;
                assert(before[0].0 < sz);
                assert(at > 0);
                assert(grown[0] == before[0]);
                lemma_group_at(grown, 0);
                let i = choose|i: int|
                    0 <= i < grown.len() && (#[trigger] grown[i]).0 == floor && entries(
                        self.fsmap,
                    ) == grown.remove(i);
                lemma_group_at(grown, i);
                assert(i == 0);
                lemma_groups_remove(grown, 0);
                let kept = entries(self.fsmap);
                assert(groups_of(kept) =~= groups_of(before).remove(floor).insert(
                    sz,
                    seq![filename@],
                ));
                assert forall|j: int| 0 <= j < kept.len() implies (#[trigger] kept[j]).1.len()
                    > 0 by {
                    assert(kept[j] == grown[j + 1]);
                    if j + 1 < at {
                        assert(grown[j + 1] == before[j + 1]);
                    } else if j + 1 > at {
                        assert(grown[j + 1] == before[j]);
                    }
                }
                self.lemma_wf_view();
            }
        }
    }
}

} // verus!
