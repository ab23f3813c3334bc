//! The world store: the single mutable map from region coordinate to merged
//! voxel grid, plus the per-region live viewer count, mutated only by the
//! control loop.

use vstd::prelude::*;

use crate::assoc::{
    lemma_map_of_dom, lemma_map_of_index, lemma_map_of_len, lemma_map_of_push,
    lemma_map_of_remove, lemma_map_of_update, lemma_unique_remove, map_of, unique_keys,
};
use crate::block::Block;
use crate::coord::RegionCoordinate;
use crate::grid::{grid_wf, spec_col_index, VoxelGrid};

verus! {

/// The viewer count a watch map records for `c`; absent means zero.
pub open spec fn count_of(w: Map<RegionCoordinate, u64>, c: RegionCoordinate) -> int {
    if w.dom().contains(c) {
        w[c] as int
    } else {
        0
    }
}

/// Region coordinate to merged grid, and region coordinate to live viewer
/// count. A region entry exists from merge until the eviction pass finds its
/// viewer count at zero; counts are driven by the view layer through
/// `viewer_inc` and `viewer_dec`.
pub struct WorldStore {
    entries: Vec<(RegionCoordinate, VoxelGrid)>,
    watchers: Vec<(RegionCoordinate, u64)>,
}

impl WorldStore {
    /// The merged grids, each read as its view.
    pub closed spec fn grids(self) -> Map<RegionCoordinate, Seq<Seq<Block>>> {
        map_of(self.entries@).map_values(|g: VoxelGrid| g@)
    }

    /// The live viewer counts; a coordinate with no viewers is absent.
    pub closed spec fn watch(self) -> Map<RegionCoordinate, u64> {
        map_of(self.watchers@)
    }

    pub closed spec fn wf(self) -> bool {
        &&& unique_keys(self.entries@)
        &&& unique_keys(self.watchers@)
        &&& forall|j: int| 0 <= j < self.entries@.len() ==> (#[trigger] self.entries@[j]).1.wf()
        &&& forall|j: int| 0 <= j < self.watchers@.len() ==> (#[trigger] self.watchers@[j]).1 >= 1
    }

    pub fn new() -> (r: WorldStore)
        ensures
            r.wf(),
            r.grids() == Map::<RegionCoordinate, Seq<Seq<Block>>>::empty(),
            r.watch() == Map::<RegionCoordinate, u64>::empty(),
    {
        let r = WorldStore { entries: Vec::new(), watchers: Vec::new() };
        proof {
            assert(r.grids() =~= Map::<RegionCoordinate, Seq<Seq<Block>>>::empty());
        }
        r
    }

    /// Every stored grid view is well-formed.
    pub proof fn lemma_grids_wf(self, c: RegionCoordinate)
        requires
            self.wf(),
            self.grids().dom().contains(c),
        ensures
            grid_wf(self.grids()[c]),
    {
        lemma_map_of_dom(self.entries@, c);
        let j = choose|j: int| 0 <= j < self.entries@.len() && (#[trigger] self.entries@[j]).0 == c;
        lemma_map_of_index(self.entries@, j);
    }

    fn find_entry(&self, c: RegionCoordinate) -> (r: Option<usize>)
        ensures
            match r {
                Some(i) => i < self.entries@.len() && self.entries@[i as int].0 == c,
                None => forall|j: int|
                    0 <= j < self.entries@.len() ==> (#[trigger] self.entries@[j]).0 != c,
            },
    {
        let mut i: usize = 0;
        while i < self.entries.len()
            invariant
                i <= self.entries@.len(),
                forall|j: int| 0 <= j < i ==> (#[trigger] self.entries@[j]).0 != c,
            decreases self.entries@.len() - i,
        {
            if self.entries[i].0 == c {
                return Some(i);
            }
            i = i + 1;
        }
        None
    }

    fn find_watcher(&self, c: RegionCoordinate) -> (r: Option<usize>)
        ensures
            match r {
                Some(i) => i < self.watchers@.len() && self.watchers@[i as int].0 == c,
                None => forall|j: int|
                    0 <= j < self.watchers@.len() ==> (#[trigger] self.watchers@[j]).0 != c,
            },
    {
        let mut i: usize = 0;
        while i < self.watchers.len()
            invariant
                i <= self.watchers@.len(),
                forall|j: int| 0 <= j < i ==> (#[trigger] self.watchers@[j]).0 != c,
            decreases self.watchers@.len() - i,
        {
            if self.watchers[i].0 == c {
                return Some(i);
            }
            i = i + 1;
        }
        None
    }

    /// Whether a merged grid exists for `c`.
    pub fn contains_grid(&self, c: RegionCoordinate) -> (r: bool)
        requires
            self.wf(),
        ensures
            r == self.grids().dom().contains(c),
    {
        proof {
            lemma_map_of_dom(self.entries@, c);
        }
        match self.find_entry(c) {
            Some(i) => {
                proof {
                    lemma_map_of_index(self.entries@, i as int);
                }
                true
            },
            None => false,
        }
    }

    /// Number of merged regions.
    pub fn grid_count(&self) -> (r: usize)
        requires
            self.wf(),
        ensures
            self.grids().dom().finite(),
            r == self.grids().dom().len(),
    {
        proof {
            lemma_map_of_len(self.entries@);
            assert(self.grids().dom() =~= map_of(self.entries@).dom());
        }
        self.entries.len()
    }

    /// The merged grid for `c`, if one exists.
    pub fn get_grid(&self, c: RegionCoordinate) -> (r: Option<&VoxelGrid>)
        requires
            self.wf(),
        ensures
            match r {
                Some(g) => self.grids().dom().contains(c) && g@ == self.grids()[c] && g.wf(),
                None => !self.grids().dom().contains(c),
            },
    {
        proof {
            lemma_map_of_dom(self.entries@, c);
        }
        match self.find_entry(c) {
            Some(i) => {
                proof {
                    lemma_map_of_index(self.entries@, i as int);
                }
                Some(&self.entries[i].1)
            },
            None => None,
        }
    }

    /// Merge a worker-produced grid for a region that has none yet.
    pub fn insert_grid(&mut self, c: RegionCoordinate, g: VoxelGrid)
        requires
            old(self).wf(),
            g.wf(),
            !old(self).grids().dom().contains(c),
        ensures
            final(self).wf(),
            final(self).grids() == old(self).grids().insert(c, g@),
            final(self).watch() == old(self).watch(),
    {
        proof {
            lemma_map_of_dom(self.entries@, c);
            lemma_map_of_push(self.entries@, c, g);
        }
        self.entries.push((c, g));
        proof {
            assert(self.grids() =~= old(self).grids().insert(c, g@));
        }
    }

    /// Read one voxel of a merged region.
    pub fn get_block(&self, c: RegionCoordinate, x: usize, y: usize, z: usize) -> (r: Option<
        Block,
    >)
        requires
            self.wf(),
            x < 16,
            y < 384,
            z < 16,
        ensures
            match r {
                Some(b) => self.grids().dom().contains(c) && b == self.grids()[c][spec_col_index(
                    x as int,
                    z as int,
                )][y as int],
                None => !self.grids().dom().contains(c),
            },
    {
        match self.get_grid(c) {
            Some(g) => Some(g.get_block(x, y, z)),
            None => None,
        }
    }

    /// Overwrite one voxel of a merged region; reports whether the region
    /// was merged at all.
    pub fn set_block(&mut self, c: RegionCoordinate, x: usize, y: usize, z: usize, b: Block) -> (r:
        bool)
        requires
            old(self).wf(),
            x < 16,
            y < 384,
            z < 16,
        ensures
            final(self).wf(),
            final(self).watch() == old(self).watch(),
            r == old(self).grids().dom().contains(c),
            r ==> final(self).grids() == old(self).grids().insert(
                c,
                old(self).grids()[c].update(
                    spec_col_index(x as int, z as int),
                    old(self).grids()[c][spec_col_index(x as int, z as int)].update(y as int, b),
                ),
            ),
            !r ==> final(self).grids() == old(self).grids(),
    {
        proof {
            lemma_map_of_dom(self.entries@, c);
        }
        match self.find_entry(c) {
            Some(i) => {
                proof {
                    lemma_map_of_index(self.entries@, i as int);
                }
                let ghost s0 = self.entries@;
                self.entries[i].1.set_block(x, y, z, b);
                proof {
                    let ghost gnew = self.entries@[i as int].1;
                    assert(self.entries@ =~= s0.update(i as int, (c, gnew)));
                    lemma_map_of_update(s0, i as int, gnew);
                    assert(forall|a: int, b2: int|
                        0 <= a < b2 < self.entries@.len() ==> (#[trigger] self.entries@[a]).0 != (
                        #[trigger] self.entries@[b2]).0);
                    assert(self.grids() =~= old(self).grids().insert(
                        c,
                        old(self).grids()[c].update(
                            spec_col_index(x as int, z as int),
                            old(self).grids()[c][spec_col_index(x as int, z as int)].update(
                                y as int,
                                b,
                            ),
                        ),
                    ));
                }
                true
            },
            None => false,
        }
    }

    /// The live viewer count of `c`.
    pub fn viewer_count(&self, c: RegionCoordinate) -> (r: u64)
        requires
            self.wf(),
        ensures
            r as int == count_of(self.watch(), c),
    {
        count_in(&self.watchers, c)
    }

    /// A viewer's view now includes `c`.
    pub fn viewer_inc(&mut self, c: RegionCoordinate)
        requires
            old(self).wf(),
            count_of(old(self).watch(), c) < u64::MAX,
        ensures
            final(self).wf(),
            final(self).grids() == old(self).grids(),
            final(self).watch() == old(self).watch().insert(
                c,
                (count_of(old(self).watch(), c) + 1) as u64,
            ),
    {
        proof {
            lemma_map_of_dom(self.watchers@, c);
        }
        match self.find_watcher(c) {
            Some(i) => {
                proof {
                    lemma_map_of_index(self.watchers@, i as int);
                }
                let n = self.watchers[i].1;
                proof {
                    lemma_map_of_update(self.watchers@, i as int, (n + 1) as u64);
                }
                self.watchers[i] = (c, n + 1);
                proof {
                    assert(forall|a: int, b: int|
                        0 <= a < b < self.watchers@.len() ==> (#[trigger] self.watchers@[a]).0 != (
                        #[trigger] self.watchers@[b]).0);
                }
            },
            None => {
                proof {
                    lemma_map_of_push(self.watchers@, c, 1u64);
                }
                self.watchers.push((c, 1));
            },
        }
    }

    /// A viewer's view no longer includes `c`. With no viewers recorded the
    /// call changes nothing.
    pub fn viewer_dec(&mut self, c: RegionCoordinate)
        requires
            old(self).wf(),
        ensures
            final(self).wf(),
            final(self).grids() == old(self).grids(),
            final(self).watch() == (if count_of(old(self).watch(), c) > 1 {
                old(self).watch().insert(c, (count_of(old(self).watch(), c) - 1) as u64)
            } else {
                old(self).watch().remove(c)
            }),
    {
        proof {
            lemma_map_of_dom(self.watchers@, c);
            if !old(self).watch().dom().contains(c) {
                assert(old(self).watch().remove(c) =~= old(self).watch());
            }
        }
        match self.find_watcher(c) {
            Some(i) => {
                proof {
                    lemma_map_of_index(self.watchers@, i as int);
                }
                let n = self.watchers[i].1;
                if n > 1 {
                    proof {
                        lemma_map_of_update(self.watchers@, i as int, (n - 1) as u64);
                    }
                    self.watchers[i] = (c, n - 1);
                    proof {
                        assert(forall|a: int, b: int|
                            0 <= a < b < self.watchers@.len() ==> (#[trigger] self.watchers@[a]).0
                                != (#[trigger] self.watchers@[b]).0);
                    }
                } else {
                    proof {
                        lemma_map_of_remove(self.watchers@, i as int);
                        lemma_unique_remove(self.watchers@, i as int);
                    }
                    self.watchers.remove(i);
                }
            },
            None => {},
        }
    }

    fn find_unwatched(&self) -> (r: Option<usize>)
        requires
            unique_keys(self.watchers@),
        ensures
            match r {
                Some(i) => i < self.entries@.len() && count_of(
                    map_of(self.watchers@),
                    self.entries@[i as int].0,
                ) == 0,
                None => forall|j: int|
                    0 <= j < self.entries@.len() ==> count_of(
                        map_of(self.watchers@),
                        (#[trigger] self.entries@[j]).0,
                    ) >= 1,
            },
    {
        let mut i: usize = 0;
        while i < self.entries.len()
            invariant
                unique_keys(self.watchers@),
                i <= self.entries@.len(),
                forall|j: int|
                    0 <= j < i ==> count_of(
                        map_of(self.watchers@),
                        (#[trigger] self.entries@[j]).0,
                    ) >= 1,
            decreases self.entries@.len() - i,
        {
            let w = count_in(&self.watchers, self.entries[i].0);
            if w == 0 {
                return Some(i);
            }
            i = i + 1;
        }
        None
    }

    /// The eviction pass: destroy every region entry whose viewer count is
    /// zero, and only those. A region with a live viewer is never removed and
    /// keeps its grid unchanged.
    pub fn evict_unviewed(&mut self)
        requires
            old(self).wf(),
        ensures
            final(self).wf(),
            final(self).watch() == old(self).watch(),
            forall|c: RegionCoordinate|
                #[trigger] final(self).grids().dom().contains(c) <==> old(
                    self,
                ).grids().dom().contains(c) && count_of(old(self).watch(), c) >= 1,
            forall|c: RegionCoordinate|
                #[trigger] final(self).grids().dom().contains(c) ==> final(self).grids()[c] == old(
                    self,
                ).grids()[c],
    {
        let ghost g0 = old(self).grids();
        let ghost w0 = old(self).watch();
        loop
            invariant
                self.wf(),
                self.watch() == w0,
                forall|c: RegionCoordinate|
                    #[trigger] self.grids().dom().contains(c) ==> g0.dom().contains(c)
                        && self.grids()[c] == g0[c],
                forall|c: RegionCoordinate|
                    #[trigger] g0.dom().contains(c) && count_of(w0, c) >= 1
                        ==> self.grids().dom().contains(c),
            ensures
                self.wf(),
                self.watch() == w0,
                forall|c: RegionCoordinate|
                    #[trigger] self.grids().dom().contains(c) ==> g0.dom().contains(c)
                        && self.grids()[c] == g0[c] && count_of(w0, c) >= 1,
                forall|c: RegionCoordinate|
                    #[trigger] g0.dom().contains(c) && count_of(w0, c) >= 1
                        ==> self.grids().dom().contains(c),
            decreases self.entries@.len(),
        {
            match self.find_unwatched() {
                Some(i) => {
                    let ghost s = self.entries@;
                    let ghost gprev = self.grids();
                    let ghost c0 = s[i as int].0;
                    proof {
                        lemma_map_of_index(s, i as int);
                        lemma_map_of_remove(s, i as int);
                        lemma_unique_remove(s, i as int);
                    }
                    self.entries.remove(i);
                    proof {
                        assert forall|j: int| 0 <= j < self.entries@.len() implies (
                        #[trigger] self.entries@[j]).1.wf() by {
                            if j < i {
                                assert(self.entries@[j] == s.subrange(0, i as int)[j]);
                                assert(self.entries@[j] == s[j]);
                            } else {
                                assert(self.entries@[j] == s.subrange(
                                    i as int + 1,
                                    s.len() as int,
                                )[j - i]);
                                assert(self.entries@[j] == s[j + 1]);
                            }
                        }
                        assert(map_of(self.entries@) == map_of(s).remove(c0));
                        assert(self.grids() =~= gprev.remove(c0));
                        assert forall|c: RegionCoordinate|
                            #[trigger] self.grids().dom().contains(c) implies g0.dom().contains(
                            c,
                        ) && self.grids()[c] == g0[c] by {
                            assert(gprev.dom().contains(c) && gprev[c] == g0[c]);
                        }
                        assert forall|c: RegionCoordinate|
                            #[trigger] g0.dom().contains(c) && count_of(w0, c) >= 1 implies
                        self.grids().dom().contains(c) by {
                            assert(gprev.dom().contains(c));
                            assert(c != c0);
                        }
                    }
                },
                None => {
                    proof {
                        assert forall|c: RegionCoordinate|
                            #[trigger] self.grids().dom().contains(c) implies count_of(w0, c)
                            >= 1 by {
                            lemma_map_of_dom(self.entries@, c);
                            let j = choose|j: int|
                                0 <= j < self.entries@.len() && (#[trigger] self.entries@[j]).0
                                    == c;
                        }
                    }
                    break ;
                },
            }
        }
    }
}

/// Viewer count recorded for `c` in a watcher list; absent means zero.
fn count_in(watchers: &Vec<(RegionCoordinate, u64)>, c: RegionCoordinate) -> (r: u64)
    requires
        unique_keys(watchers@),
    ensures
        r as int == count_of(map_of(watchers@), c),
{
    proof {
        lemma_map_of_dom(watchers@, c);
    }
    let mut i: usize = 0;
    while i < watchers.len()
        invariant
            unique_keys(watchers@),
            i <= watchers@.len(),
            forall|j: int| 0 <= j < i ==> (#[trigger] watchers@[j]).0 != c,
        decreases watchers@.len() - i,
    {
        if watchers[i].0 == c {
            proof {
                lemma_map_of_index(watchers@, i as int);
            }
            return watchers[i].1;
        }
        i = i + 1;
    }
    0
}

} // verus!
