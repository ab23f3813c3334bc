//! The streaming controller: per control tick it diffs viewer views,
//! enqueues newly observed regions with their priority, merges finished
//! grids into the world store, hands prioritized batches to the worker pool,
//! and runs the eviction pass.

use vstd::prelude::*;

use crate::coord::{priority_of, RegionCoordinate, RegionView};
use crate::grid::VoxelGrid;
use crate::registry::{
    dispatch_all, distinct_coords, min_u64, resubmit_spec, sorted_by_priority, DispatchState,
    PendingRegistry, RegistryError,
};
use crate::store::{count_of, WorldStore};
use crate::view::{diff_regions, spec_excluded, view_regions};

verus! {

/// Per-viewer view state, owned by the viewer's session: created on join,
/// updated every tick, handed back on disconnect. A fresh state has no
/// previous view, so on the first tick the whole view counts as newly
/// entered.
pub struct ViewerViewState {
    pub view: Option<RegionView>,
}

impl ViewerViewState {
    /// Any view this state records stays inside the coordinate range.
    pub open spec fn wf(self) -> bool {
        self.view is Some ==> self.view.unwrap().in_bounds()
    }

    pub fn new() -> (r: ViewerViewState)
        ensures
            r.view is None,
            r.wf(),
    {
        ViewerViewState { view: None }
    }
}

/// `c` enters the view on a move from `prev` to `next`.
pub open spec fn spec_newly(prev: Option<RegionView>, next: RegionView, c: RegionCoordinate) -> bool {
    next.spec_contains(c) && !spec_excluded(prev, c)
}

/// `c` leaves the view on a move from `prev` to `next`.
pub open spec fn spec_gone(prev: Option<RegionView>, next: RegionView, c: RegionCoordinate) -> bool {
    spec_excluded(prev, c) && !next.spec_contains(c)
}

/// The priority a viewer centered at `a` gives region `b`, as the registry
/// stores it.
pub open spec fn spec_priority(a: RegionCoordinate, b: RegionCoordinate) -> u64 {
    priority_of(a, b) as u64
}

/// The dispatch state of `c` after one request at priority `p` against
/// registry `m`: what `request_spec(m, c, p)` holds at `c`.
pub open spec fn requested_state(
    m: Map<RegionCoordinate, DispatchState>,
    c: RegionCoordinate,
    p: u64,
) -> DispatchState {
    if !m.dom().contains(c) {
        DispatchState::Queued(p)
    } else if m[c] is Queued {
        DispatchState::Queued(min_u64(m[c]->Queued_0, p))
    } else {
        m[c]
    }
}

/// Orchestrates the pending registry and the world store. The registry and
/// the store never hold the same coordinate: a region is pending exactly
/// until its grid is merged.
pub struct StreamingController {
    pub registry: PendingRegistry,
    pub store: WorldStore,
}

impl StreamingController {
    pub open spec fn wf(self) -> bool {
        &&& self.registry.wf()
        &&& self.store.wf()
        &&& forall|c: RegionCoordinate|
            #[trigger] self.registry@.dom().contains(c) ==> !self.store.grids().dom().contains(c)
    }

    pub fn new() -> (r: StreamingController)
        ensures
            r.wf(),
            r.registry@ == Map::<RegionCoordinate, DispatchState>::empty(),
            r.store.grids() == Map::<RegionCoordinate, Seq<Seq<crate::block::Block>>>::empty(),
            r.store.watch() == Map::<RegionCoordinate, u64>::empty(),
    {
        StreamingController { registry: PendingRegistry::new(), store: WorldStore::new() }
    }

    /// Count one more viewer for each listed region, and queue a generation
    /// request, at the viewer's squared distance, for each that has no
    /// merged grid yet.
    fn enter_regions(&mut self, entered: &Vec<RegionCoordinate>, center: RegionCoordinate)
        requires
            old(self).wf(),
            forall|k: int, l: int| 0 <= k < l < entered@.len() ==> entered@[k] != entered@[l],
            forall|k: int|
                0 <= k < entered@.len() ==> count_of(
                    old(self).store.watch(),
                    (#[trigger] entered@[k]),
                ) < u64::MAX,
        ensures
            final(self).wf(),
            final(self).store.grids() == old(self).store.grids(),
            forall|c: RegionCoordinate|
                #[trigger] count_of(final(self).store.watch(), c) == count_of(
                    old(self).store.watch(),
                    c,
                ) + (if entered@.contains(c) {
                    1int
                } else {
                    0int
                }),
            forall|c: RegionCoordinate|
                #[trigger] final(self).registry@.dom().contains(c) <==> old(self).registry@.dom().contains(c) || (entered@.contains(c) && !old(self).store.grids().dom().contains(c)),
            forall|c: RegionCoordinate|
                #[trigger] final(self).registry@.dom().contains(c) ==> final(self).registry@[c]
                    == (if entered@.contains(c) && !old(self).store.grids().dom().contains(c) {
                    requested_state(old(self).registry@, c, spec_priority(center, c))
                } else {
                    old(self).registry@[c]
                }),
    {
        let ghost m0 = self.registry@;
        let ghost w0 = self.store.watch();
        let ghost g0 = self.store.grids();
        let mut i: usize = 0;
        while i < entered.len()
            invariant
                self.wf(),
                self.store.grids() == g0,
                i <= entered@.len(),
                forall|k: int, l: int| 0 <= k < l < entered@.len() ==> entered@[k] != entered@[l],
                forall|k: int|
                    0 <= k < entered@.len() ==> count_of(w0, (#[trigger] entered@[k])) < u64::MAX,
                forall|c: RegionCoordinate|
                    #[trigger] count_of(self.store.watch(), c) == count_of(w0, c) + (if entered@.subrange(0, i as int).contains(c) {
                        1int
                    } else {
                        0int
                    }),
                forall|c: RegionCoordinate|
                    #[trigger] self.registry@.dom().contains(c) <==> m0.dom().contains(c) || (
                    entered@.subrange(0, i as int).contains(c) && !g0.dom().contains(c)),
                forall|c: RegionCoordinate|
                    #[trigger] self.registry@.dom().contains(c) ==> self.registry@[c] == (if entered@.subrange(0, i as int).contains(c) && !g0.dom().contains(c) {
                        requested_state(m0, c, spec_priority(center, c))
                    } else {
                        m0[c]
                    }),
            decreases entered@.len() - i,
        {
            let c = entered[i];
            let ghost pre = entered@.subrange(0, i as int);
            let ghost post = entered@.subrange(0, i as int + 1);
            proof {
                assert(post =~= pre.push(c));
                assert(!pre.contains(c)) by {
                    if pre.contains(c) {
                        let j = choose|j: int| 0 <= j < pre.len() && pre[j] == c;
                        assert(entered@[j] == entered@[i as int]);
                    }
                }
                assert forall|c2: RegionCoordinate| post.contains(c2) implies pre.contains(c2)
                    || c2 == c by {
                    let j = choose|j: int| 0 <= j < post.len() && post[j] == c2;
                    if j < i {
                        assert(pre[j] == c2);
                    }
                }
                assert forall|c2: RegionCoordinate| pre.contains(c2) implies post.contains(
                    c2,
                ) by {
                    let j = choose|j: int| 0 <= j < pre.len() && pre[j] == c2;
                    assert(post[j] == c2);
                }
                assert(post.contains(c)) by {
                    assert(post[i as int] == c);
                }
                assert(count_of(self.store.watch(), c) == count_of(w0, c));
            }
            let ghost wprev = self.store.watch();
            let ghost mprev = self.registry@;
            self.store.viewer_inc(c);
            proof {
                assert forall|c2: RegionCoordinate| #[trigger] count_of(self.store.watch(), c2)
                    == count_of(w0, c2) + (if post.contains(c2) {
                    1int
                } else {
                    0int
                }) by {
                    assert(count_of(wprev, c2) == count_of(w0, c2) + (if pre.contains(c2) {
                        1int
                    } else {
                        0int
                    }));
                    if c2 != c {
                        assert(count_of(self.store.watch(), c2) == count_of(wprev, c2));
                    }
                }
            }
            if !self.store.contains_grid(c) {
                let p = center.distance_squared(c);
                self.registry.request(c, p);
                proof {
                    assert(mprev.dom().contains(c) ==> mprev[c] == m0[c]);
                    assert(mprev.dom().contains(c) <==> m0.dom().contains(c));
                    assert(requested_state(mprev, c, p) == requested_state(m0, c, p));
                    assert forall|c2: RegionCoordinate|
                        #[trigger] self.registry@.dom().contains(c2) <==> m0.dom().contains(c2) || (
                    post.contains(c2) && !g0.dom().contains(c2)) by {
                        if c2 != c {
                            assert(self.registry@.dom().contains(c2) == mprev.dom().contains(c2));
                            assert(mprev.dom().contains(c2) <==> m0.dom().contains(c2) || (
                            pre.contains(c2) && !g0.dom().contains(c2)));
                        }
                    }
                    assert forall|c2: RegionCoordinate|
                        #[trigger] self.registry@.dom().contains(c2) implies self.registry@[c2]
                        == (if post.contains(c2) && !g0.dom().contains(c2) {
                        requested_state(m0, c2, spec_priority(center, c2))
                    } else {
                        m0[c2]
                    }) by {
                        if c2 != c {
                            assert(self.registry@[c2] == mprev[c2]);
                            assert(mprev.dom().contains(c2));
                        } else {
                            assert(self.registry@[c] == requested_state(mprev, c, p));
                        }
                    }
                }
            } else {
                proof {
                    assert forall|c2: RegionCoordinate|
                        #[trigger] self.registry@.dom().contains(c2) <==> m0.dom().contains(c2) || (
                    post.contains(c2) && !g0.dom().contains(c2)) by {
                        if c2 != c {
                            assert(mprev.dom().contains(c2) <==> m0.dom().contains(c2) || (
                            pre.contains(c2) && !g0.dom().contains(c2)));
                        }
                    }
                }
            }
            i = i + 1;
        }
        proof {
            assert(entered@.subrange(0, entered@.len() as int) =~= entered@);
        }
    }

    /// Count one viewer less for each listed region. A region whose count is
    /// already zero stays at zero.
    fn leave_regions(&mut self, left: &Vec<RegionCoordinate>)
        requires
            old(self).wf(),
            forall|k: int, l: int| 0 <= k < l < left@.len() ==> left@[k] != left@[l],
        ensures
            final(self).wf(),
            final(self).store.grids() == old(self).store.grids(),
            final(self).registry@ == old(self).registry@,
            forall|c: RegionCoordinate|
                #[trigger] count_of(final(self).store.watch(), c) == (if left@.contains(c)
                    && count_of(old(self).store.watch(), c) >= 1 {
                    count_of(old(self).store.watch(), c) - 1
                } else {
                    count_of(old(self).store.watch(), c)
                }),
    {
        let ghost w0 = self.store.watch();
        let ghost g0 = self.store.grids();
        let ghost m0 = self.registry@;
        let mut i: usize = 0;
        while i < left.len()
            invariant
                self.wf(),
                self.store.grids() == g0,
                self.registry@ == m0,
                i <= left@.len(),
                forall|k: int, l: int| 0 <= k < l < left@.len() ==> left@[k] != left@[l],
                forall|c: RegionCoordinate|
                    #[trigger] count_of(self.store.watch(), c) == (if left@.subrange(
                        0,
                        i as int,
                    ).contains(c) && count_of(w0, c) >= 1 {
                        count_of(w0, c) - 1
                    } else {
                        count_of(w0, c)
                    }),
            decreases left@.len() - i,
        {
            let c = left[i];
            let ghost pre = left@.subrange(0, i as int);
            let ghost post = left@.subrange(0, i as int + 1);
            proof {
                assert(post =~= pre.push(c));
                assert(!pre.contains(c)) by {
                    if pre.contains(c) {
                        let j = choose|j: int| 0 <= j < pre.len() && pre[j] == c;
                        assert(left@[j] == left@[i as int]);
                    }
                }
                assert forall|c2: RegionCoordinate| post.contains(c2) implies pre.contains(c2)
                    || c2 == c by {
                    let j = choose|j: int| 0 <= j < post.len() && post[j] == c2;
                    if j < i {
                        assert(pre[j] == c2);
                    }
                }
                assert forall|c2: RegionCoordinate| pre.contains(c2) implies post.contains(
                    c2,
                ) by {
                    let j = choose|j: int| 0 <= j < pre.len() && pre[j] == c2;
                    assert(post[j] == c2);
                }
                assert(post.contains(c)) by {
                    assert(post[i as int] == c);
                }
            }
            let ghost wprev = self.store.watch();
            self.store.viewer_dec(c);
            proof {
                assert forall|c2: RegionCoordinate| #[trigger] count_of(self.store.watch(), c2)
                    == (if post.contains(c2) && count_of(w0, c2) >= 1 {
                    count_of(w0, c2) - 1
                } else {
                    count_of(w0, c2)
                }) by {
                    assert(count_of(wprev, c2) == (if pre.contains(c2) && count_of(w0, c2) >= 1 {
                        count_of(w0, c2) - 1
                    } else {
                        count_of(w0, c2)
                    }));
                    if c2 != c {
                        assert(count_of(self.store.watch(), c2) == count_of(wprev, c2));
                    } else {
                        assert(count_of(wprev, c) == count_of(w0, c));
                    }
                }
            }
            i = i + 1;
        }
        proof {
            assert(left@.subrange(0, left@.len() as int) =~= left@);
        }
    }

    /// One viewer's tick: diff the view against the previous tick's view,
    /// count the viewer on every newly entered region and queue generation
    /// for those without a merged grid, uncount it from every region left,
    /// and remember the new view for the next tick.
    pub fn viewer_tick(
        &mut self,
        vs: &mut ViewerViewState,
        center: RegionCoordinate,
        distance: u8,
    )
        requires
            old(self).wf(),
            old(vs).wf(),
            (RegionView { center, distance }).in_bounds(),
            forall|c: RegionCoordinate|
                spec_newly(old(vs).view, RegionView { center, distance }, c) ==> count_of(
                    old(self).store.watch(),
                    c,
                ) < u64::MAX,
        ensures
            final(self).wf(),
            final(vs).wf(),
            final(vs).view == Some(RegionView { center, distance }),
            final(self).store.grids() == old(self).store.grids(),
            forall|c: RegionCoordinate|
                #[trigger] count_of(final(self).store.watch(), c) == (if spec_newly(
                    old(vs).view,
                    RegionView { center, distance },
                    c,
                ) {
                    count_of(old(self).store.watch(), c) + 1
                } else if spec_gone(old(vs).view, RegionView { center, distance }, c) && count_of(
                    old(self).store.watch(),
                    c,
                ) >= 1 {
                    count_of(old(self).store.watch(), c) - 1
                } else {
                    count_of(old(self).store.watch(), c)
                }),
            forall|c: RegionCoordinate|
                #[trigger] final(self).registry@.dom().contains(c) <==> old(self).registry@.dom().contains(c) || (spec_newly(
                    old(vs).view,
                    RegionView { center, distance },
                    c,
                ) && !old(self).store.grids().dom().contains(c)),
            forall|c: RegionCoordinate|
                #[trigger] final(self).registry@.dom().contains(c) ==> final(self).registry@[c]
                    == (if spec_newly(old(vs).view, RegionView { center, distance }, c) && !old(self).store.grids().dom().contains(c) {
                    requested_state(old(self).registry@, c, spec_priority(center, c))
                } else {
                    old(self).registry@[c]
                }),
    {
        let next = RegionView { center, distance };
        let entered = diff_regions(next, vs.view);
        proof {
            assert forall|c: RegionCoordinate| #[trigger] entered@.contains(c) implies count_of(
                self.store.watch(),
                c,
            ) < u64::MAX by {
                assert(spec_newly(vs.view, next, c));
            }
            assert forall|k: int|
                0 <= k < entered@.len() implies count_of(
                self.store.watch(),
                (#[trigger] entered@[k]),
            ) < u64::MAX by {
                assert(entered@.contains(entered@[k]));
            }
        }
        self.enter_regions(&entered, center);
        match vs.view {
            Some(prev) => {
                let left = diff_regions(prev, Some(next));
                proof {
                    assert(forall|c: RegionCoordinate|
                        #[trigger] left@.contains(c) <==> spec_gone(old(vs).view, next, c));
                }
                self.leave_regions(&left);
            },
            None => {},
        }
        vs.view = Some(next);
    }

    /// A viewer disconnected: uncount it from every region of its last view.
    pub fn viewer_leave(&mut self, vs: ViewerViewState)
        requires
            old(self).wf(),
            vs.wf(),
        ensures
            final(self).wf(),
            final(self).store.grids() == old(self).store.grids(),
            final(self).registry@ == old(self).registry@,
            forall|c: RegionCoordinate|
                #[trigger] count_of(final(self).store.watch(), c) == (if spec_excluded(vs.view, c)
                    && count_of(old(self).store.watch(), c) >= 1 {
                    count_of(old(self).store.watch(), c) - 1
                } else {
                    count_of(old(self).store.watch(), c)
                }),
    {
        match vs.view {
            Some(v) => {
                let all = view_regions(v);
                proof {
                    assert forall|k: int, l: int| 0 <= k < l < all@.len() implies all@[k]
                        != all@[l] by {
                        crate::view::lemma_region_at_injective(v, k, l);
                    }
                    assert forall|c: RegionCoordinate| #[trigger] all@.contains(c) implies
                    v.spec_contains(c) by {
                        let k = choose|k: int| 0 <= k < all@.len() && all@[k] == c;
                        crate::view::lemma_region_at_coords(v, k);
                    }
                    assert forall|c: RegionCoordinate| v.spec_contains(c) implies
                    all@.contains(c) by {
                        crate::view::lemma_region_at_complete(v, c);
                        let k = choose|k: int|
                            0 <= k < v.side() * v.side() && #[trigger] v.region_at(k) == c;
                        assert(all@[k] == c);
                    }
                }
                self.leave_regions(&all);
            },
            None => {},
        }
    }

    /// A worker handed back `(c, grid)`. If `c` was dispatched, merge the
    /// grid into the world store and forget the pending entry. Anything else
    /// is an internal invariant violation, never legitimate: the stray grid
    /// is dropped, the report says why, and the streaming state is left
    /// untouched so the service stays alive.
    pub fn accept_result(&mut self, c: RegionCoordinate, grid: VoxelGrid) -> (r: Result<
        (),
        RegistryError,
    >)
        requires
            old(self).wf(),
            grid.wf(),
        ensures
            final(self).wf(),
            final(self).store.watch() == old(self).store.watch(),
            match r {
                Ok(()) => {
                    &&& old(self).registry@.dom().contains(c)
                    &&& old(self).registry@[c] is Dispatched
                    &&& final(self).registry@ == old(self).registry@.remove(c)
                    &&& final(self).store.grids() == old(self).store.grids().insert(c, grid@)
                },
                Err(RegistryError::Missing) => {
                    &&& !old(self).registry@.dom().contains(c)
                    &&& final(self).registry@ == old(self).registry@
                    &&& final(self).store.grids() == old(self).store.grids()
                },
                Err(RegistryError::StillQueued) => {
                    &&& old(self).registry@.dom().contains(c)
                    &&& old(self).registry@[c] is Queued
                    &&& final(self).registry@ == old(self).registry@
                    &&& final(self).store.grids() == old(self).store.grids()
                },
            },
    {
        match self.registry.complete(c) {
            Ok(()) => {
                self.store.insert_grid(c, grid);
                Ok(())
            },
            Err(e) => Err(e),
        }
    }

    /// Pull the prioritized batch of queued regions for submission to the
    /// worker pool, closest first, marking each as dispatched.
    pub fn take_dispatch_batch(&mut self) -> (r: Vec<(u64, RegionCoordinate)>)
        requires
            old(self).wf(),
        ensures
            final(self).wf(),
            final(self).store.grids() == old(self).store.grids(),
            final(self).store.watch() == old(self).store.watch(),
            final(self).registry@ == dispatch_all(old(self).registry@),
            sorted_by_priority(r@),
            distinct_coords(r@),
            forall|k: int|
                0 <= k < r@.len() ==> old(self).registry@.dom().contains((#[trigger] r@[k]).1)
                    && old(self).registry@[r@[k].1] == DispatchState::Queued(r@[k].0),
            forall|c: RegionCoordinate|
                #[trigger] old(self).registry@.dom().contains(c) && old(self).registry@[c] is Queued
                    ==> exists|k: int| 0 <= k < r@.len() && (#[trigger] r@[k]).1 == c,
    {
        let r = self.registry.drain_sendable();
        proof {
            assert forall|c: RegionCoordinate| #[trigger] self.registry@.dom().contains(c) implies
            !self.store.grids().dom().contains(c) by {
                assert(old(self).registry@.dom().contains(c));
            }
        }
        r
    }

    /// Submission of `c` to the worker pool failed: requeue it at top
    /// priority so it is retried next cycle rather than lost.
    pub fn report_dispatch_failure(&mut self, c: RegionCoordinate)
        requires
            old(self).wf(),
        ensures
            final(self).wf(),
            final(self).store.grids() == old(self).store.grids(),
            final(self).store.watch() == old(self).store.watch(),
            final(self).registry@ == resubmit_spec(old(self).registry@, c),
    {
        self.registry.resubmit_failed(c);
        proof {
            assert forall|c2: RegionCoordinate| #[trigger] self.registry@.dom().contains(
                c2,
            ) implies !self.store.grids().dom().contains(c2) by {
                assert(old(self).registry@.dom().contains(c2));
            }
        }
    }

    /// The eviction pass, run after all viewer-view updates of the tick:
    /// destroy every merged region whose viewer count is zero, and only
    /// those.
    pub fn evict_unviewed(&mut self)
        requires
            old(self).wf(),
        ensures
            final(self).wf(),
            final(self).registry@ == old(self).registry@,
            final(self).store.watch() == old(self).store.watch(),
            forall|c: RegionCoordinate|
                #[trigger] final(self).store.grids().dom().contains(c) <==> old(self).store.grids().dom().contains(c) && count_of(old(self).store.watch(), c) >= 1,
            forall|c: RegionCoordinate|
                #[trigger] final(self).store.grids().dom().contains(c) ==> final(self).store.grids()[c] == old(self).store.grids()[c],
    {
        self.store.evict_unviewed();
    }
}

} // verus!
