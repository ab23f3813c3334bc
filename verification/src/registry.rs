//! The pending-region registry: which regions are waiting for generation
//! (with a priority) and which have been handed to the worker pool.

use vstd::prelude::*;

use crate::assoc::{
    lemma_map_of_dom, lemma_map_of_index, lemma_map_of_len, lemma_map_of_push,
    lemma_map_of_remove, lemma_map_of_update, lemma_unique_remove, map_of, unique_keys,
};
use crate::coord::RegionCoordinate;

verus! {

/// Dispatch state of a pending region: still waiting with a priority
/// (squared viewer distance, lower is more urgent), or already sent to the
/// worker pool and awaiting its result.
#[derive(Clone, Copy, PartialEq, Eq, Debug, Structural)]
pub enum DispatchState {
    Queued(u64),
    Dispatched,
}

/// Why a completion was rejected: the coordinate was never pending, or it was
/// still queued and so was never sent to a worker. Either means a worker
/// finished something the registry never dispatched.
#[derive(Clone, Copy, PartialEq, Eq, Debug, Structural)]
pub enum RegistryError {
    Missing,
    StillQueued,
}

pub open spec fn min_u64(a: u64, b: u64) -> u64 {
    if a <= b {
        a
    } else {
        b
    }
}

/// What `request` does to the registry: insert fresh coordinates as queued,
/// keep the more urgent priority for queued ones, leave dispatched ones alone.
pub open spec fn request_spec(
    m: Map<RegionCoordinate, DispatchState>,
    c: RegionCoordinate,
    p: u64,
) -> Map<RegionCoordinate, DispatchState> {
    if !m.dom().contains(c) {
        m.insert(c, DispatchState::Queued(p))
    } else if m[c] is Queued {
        m.insert(c, DispatchState::Queued(min_u64(m[c]->Queued_0, p)))
    } else {
        m
    }
}

/// What a successful `complete` does: forget the coordinate entirely.
pub open spec fn complete_spec(
    m: Map<RegionCoordinate, DispatchState>,
    c: RegionCoordinate,
) -> Map<RegionCoordinate, DispatchState> {
    m.remove(c)
}

/// What `resubmit_failed` does: a dispatched coordinate goes back to the
/// queue at top priority; anything else is left alone.
pub open spec fn resubmit_spec(
    m: Map<RegionCoordinate, DispatchState>,
    c: RegionCoordinate,
) -> Map<RegionCoordinate, DispatchState> {
    if m.dom().contains(c) && m[c] is Dispatched {
        m.insert(c, DispatchState::Queued(0))
    } else {
        m
    }
}

/// What `drain_sendable` leaves behind: every queued coordinate is marked
/// dispatched, everything else is untouched.
pub open spec fn dispatch_all(m: Map<RegionCoordinate, DispatchState>) -> Map<
    RegionCoordinate,
    DispatchState,
> {
    Map::new(
        |c: RegionCoordinate| m.dom().contains(c),
        |c: RegionCoordinate|
            if m[c] is Queued {
                DispatchState::Dispatched
            } else {
                m[c]
            },
    )
}

/// Batch entries come out closest first.
pub open spec fn sorted_by_priority(s: Seq<(u64, RegionCoordinate)>) -> bool {
    forall|k: int, l: int| 0 <= k < l < s.len() ==> (#[trigger] s[k]).0 <= (#[trigger] s[l]).0
}

/// No coordinate occurs twice in a batch.
pub open spec fn distinct_coords(s: Seq<(u64, RegionCoordinate)>) -> bool {
    forall|k: int, l: int| 0 <= k < l < s.len() ==> (#[trigger] s[k]).1 != (#[trigger] s[l]).1
}

/// A coordinate requested twice while it was not yet pending ends up queued
/// at the smaller of the two priorities: a closer viewer makes a region more
/// urgent, never less.
pub proof fn lemma_request_twice_takes_min(
    m: Map<RegionCoordinate, DispatchState>,
    c: RegionCoordinate,
    p1: u64,
    p2: u64,
)
    requires
        !m.dom().contains(c),
    ensures
        request_spec(request_spec(m, c, p1), c, p2) == m.insert(
            c,
            DispatchState::Queued(min_u64(p1, p2)),
        ),
{
    assert(request_spec(request_spec(m, c, p1), c, p2) =~= m.insert(
        c,
        DispatchState::Queued(min_u64(p1, p2)),
    ));
}

/// Completing a coordinate erases all memory of it: a request right after a
/// successful `complete` acts exactly like a first-time request, whatever
/// state the coordinate was in before.
pub proof fn lemma_complete_then_request(
    m: Map<RegionCoordinate, DispatchState>,
    c: RegionCoordinate,
    p: u64,
)
    ensures
        request_spec(complete_spec(m, c), c, p) == complete_spec(m, c).insert(
            c,
            DispatchState::Queued(p),
        ),
{
}

/// A sequence of requests applied one after the other.
pub open spec fn apply_requests(
    m: Map<RegionCoordinate, DispatchState>,
    rs: Seq<(RegionCoordinate, u64)>,
) -> Map<RegionCoordinate, DispatchState>
    decreases rs.len(),
{
    if rs.len() == 0 {
        m
    } else {
        request_spec(apply_requests(m, rs.drop_last()), rs.last().0, rs.last().1)
    }
}

/// No run of requests ever touches a dispatched coordinate. Together with
/// `drain_sendable`'s contract — it returns only coordinates that were
/// queued, and leaves every one of them dispatched — this means a second
/// drain, after any number of requests, can never return a coordinate the
/// first one returned: only `complete` or `resubmit_failed` can make a
/// coordinate sendable again.
pub proof fn lemma_dispatched_survives_requests(
    m: Map<RegionCoordinate, DispatchState>,
    rs: Seq<(RegionCoordinate, u64)>,
    c: RegionCoordinate,
)
    requires
        m.dom().contains(c),
        m[c] is Dispatched,
    ensures
        apply_requests(m, rs).dom().contains(c),
        apply_requests(m, rs)[c] is Dispatched,
    decreases rs.len(),
{
    if rs.len() > 0 {
        lemma_dispatched_survives_requests(m, rs.drop_last(), c);
    }
}

/// A coordinate a drain returned was queued; the drain left it dispatched,
/// and no run of requests can change that: a second drain can never return
/// the same coordinate until a `complete` or a `resubmit_failed` intervenes.
pub proof fn lemma_drain_no_repeat(
    m: Map<RegionCoordinate, DispatchState>,
    rs: Seq<(RegionCoordinate, u64)>,
    c: RegionCoordinate,
)
    requires
        m.dom().contains(c),
        m[c] is Queued,
    ensures
        apply_requests(dispatch_all(m), rs).dom().contains(c),
        apply_requests(dispatch_all(m), rs)[c] is Dispatched,
{
    assert(dispatch_all(m).dom().contains(c));
    lemma_dispatched_survives_requests(dispatch_all(m), rs, c);
}

/// Main-thread-owned map from region coordinate to dispatch state. A
/// coordinate is in here exactly from its first request until the generated
/// grid for it is merged into the world store.
pub struct PendingRegistry {
    entries: Vec<(RegionCoordinate, DispatchState)>,
}

impl View for PendingRegistry {
    type V = Map<RegionCoordinate, DispatchState>;

    closed spec fn view(&self) -> Map<RegionCoordinate, DispatchState> {
        map_of(self.entries@)
    }
}

impl PendingRegistry {
    /// Entry keys are pairwise distinct, so the sequence and its map agree.
    pub closed spec fn wf(self) -> bool {
        unique_keys(self.entries@)
    }

    pub fn new() -> (r: PendingRegistry)
        ensures
            r.wf(),
            r@ == Map::<RegionCoordinate, DispatchState>::empty(),
    {
        PendingRegistry { entries: Vec::new() }
    }

    /// Index of the entry for `c`, if any.
    fn find(&self, c: RegionCoordinate) -> (r: Option<usize>)
        ensures
            match r {
                Some(i) => i < self.entries@.len() && self.entries@[i as int].0 == c,
                None => forall|j: int|
                    0 <= j < self.entries@.len() ==> (#[trigger] self.entries@[j]).0 != c,
            },
    {
        let mut i: usize = 0;
        while i < self.entries.len()
            invariant
                i <= self.entries@.len(),
                forall|j: int| 0 <= j < i ==> (#[trigger] self.entries@[j]).0 != c,
            decreases self.entries@.len() - i,
        {
            if self.entries[i].0 == c {
                return Some(i);
            }
            i = i + 1;
        }
        None
    }

    /// The dispatch state recorded for `c`, if any.
    pub fn get(&self, c: RegionCoordinate) -> (r: Option<DispatchState>)
        requires
            self.wf(),
        ensures
            match r {
                Some(d) => self@.dom().contains(c) && self@[c] == d,
                None => !self@.dom().contains(c),
            },
    {
        proof {
            lemma_map_of_dom(self.entries@, c);
        }
        match self.find(c) {
            Some(i) => {
                proof {
                    lemma_map_of_index(self.entries@, i as int);
                }
                Some(self.entries[i].1)
            },
            None => None,
        }
    }

    /// Number of pending coordinates.
    pub fn len(&self) -> (r: usize)
        requires
            self.wf(),
        ensures
            self@.dom().finite(),
            r == self@.dom().len(),
    {
        proof {
            lemma_map_of_len(self.entries@);
        }
        self.entries.len()
    }

    /// Record that a viewer at squared distance `priority` wants `c`: a fresh
    /// coordinate is queued, a queued one keeps the smaller (more urgent)
    /// priority, a dispatched one is already in flight and is left alone.
    pub fn request(&mut self, c: RegionCoordinate, priority: u64)
        requires
            old(self).wf(),
        ensures
            final(self).wf(),
            final(self)@ == request_spec(old(self)@, c, priority),
    {
        proof {
            lemma_map_of_dom(self.entries@, c);
        }
        match self.find(c) {
            Some(i) => {
                proof {
                    lemma_map_of_index(self.entries@, i as int);
                }
                match self.entries[i].1 {
                    DispatchState::Queued(q) => {
                        let p = if q <= priority {
                            q
                        } else {
                            priority
                        };
                        proof {
                            lemma_map_of_update(self.entries@, i as int, DispatchState::Queued(p));
                        }
                        self.entries[i] = (c, DispatchState::Queued(p));
                        proof {
                            assert(forall|a: int, b: int|
                                0 <= a < b < self.entries@.len() ==> (#[trigger] self.entries@[a]).0
                                    != (#[trigger] self.entries@[b]).0);
                        }
                    },
                    DispatchState::Dispatched => {},
                }
            },
            None => {
                proof {
                    lemma_map_of_push(self.entries@, c, DispatchState::Queued(priority));
                }
                self.entries.push((c, DispatchState::Queued(priority)));
            },
        }
    }

    /// Forget `c` after its grid has been merged into the world store. A
    /// coordinate that is absent or still queued means a worker finished
    /// something that was never dispatched: the registry is left unchanged
    /// and the violation is reported.
    pub fn complete(&mut self, c: RegionCoordinate) -> (r: Result<(), RegistryError>)
        requires
            old(self).wf(),
        ensures
            final(self).wf(),
            match r {
                Ok(()) => {
                    &&& old(self)@.dom().contains(c)
                    &&& old(self)@[c] is Dispatched
                    &&& final(self)@ == complete_spec(old(self)@, c)
                },
                Err(RegistryError::Missing) => {
                    &&& !old(self)@.dom().contains(c)
                    &&& final(self)@ == old(self)@
                },
                Err(RegistryError::StillQueued) => {
                    &&& old(self)@.dom().contains(c)
                    &&& old(self)@[c] is Queued
                    &&& final(self)@ == old(self)@
                },
            },
    {
        proof {
            lemma_map_of_dom(self.entries@, c);
        }
        match self.find(c) {
            Some(i) => {
                proof {
                    lemma_map_of_index(self.entries@, i as int);
                }
                match self.entries[i].1 {
                    DispatchState::Dispatched => {
                        proof {
                            lemma_map_of_remove(self.entries@, i as int);
                            lemma_unique_remove(self.entries@, i as int);
                        }
                        self.entries.remove(i);
                        Ok(())
                    },
                    DispatchState::Queued(_) => Err(RegistryError::StillQueued),
                }
            },
            None => Err(RegistryError::Missing),
        }
    }

    /// A dispatch that could not be handed to the worker pool goes back to
    /// the queue at top priority, to be retried next cycle rather than lost.
    pub fn resubmit_failed(&mut self, c: RegionCoordinate)
        requires
            old(self).wf(),
        ensures
            final(self).wf(),
            final(self)@ == resubmit_spec(old(self)@, c),
    {
        proof {
            lemma_map_of_dom(self.entries@, c);
        }
        match self.find(c) {
            Some(i) => {
                proof {
                    lemma_map_of_index(self.entries@, i as int);
                }
                match self.entries[i].1 {
                    DispatchState::Dispatched => {
                        proof {
                            lemma_map_of_update(self.entries@, i as int, DispatchState::Queued(0));
                        }
                        self.entries[i] = (c, DispatchState::Queued(0));
                        proof {
                            assert(forall|a: int, b: int|
                                0 <= a < b < self.entries@.len() ==> (#[trigger] self.entries@[a]).0
                                    != (#[trigger] self.entries@[b]).0);
                        }
                    },
                    DispatchState::Queued(_) => {},
                }
            },
            None => {},
        }
    }

    /// Pull out every queued coordinate, mark it dispatched, and return the
    /// batch ordered by ascending priority (closest regions first), each with
    /// the priority it was queued at.
    pub fn drain_sendable(&mut self) -> (r: Vec<(u64, RegionCoordinate)>)
        requires
            old(self).wf(),
        ensures
            final(self).wf(),
            final(self)@ == dispatch_all(old(self)@),
            sorted_by_priority(r@),
            distinct_coords(r@),
            forall|k: int|
                0 <= k < r@.len() ==> old(self)@.dom().contains((#[trigger] r@[k]).1)
                    && old(self)@[r@[k].1] == DispatchState::Queued(r@[k].0),
            forall|c: RegionCoordinate|
                #[trigger] old(self)@.dom().contains(c) && old(self)@[c] is Queued
                    ==> exists|k: int| 0 <= k < r@.len() && (#[trigger] r@[k]).1 == c,
    {
        let ghost s0 = self.entries@;
        let mut picked: Vec<(u64, RegionCoordinate)> = Vec::new();
        let mut i: usize = 0;
        while i < self.entries.len()
            invariant
                unique_keys(s0),
                i <= self.entries@.len(),
                self.entries@.len() == s0.len(),
                forall|j: int| 0 <= j < s0.len() ==> (#[trigger] self.entries@[j]).0 == s0[j].0,
                forall|j: int| i <= j < s0.len() ==> (#[trigger] self.entries@[j]) == s0[j],
                forall|j: int|
                    0 <= j < i ==> (#[trigger] self.entries@[j]).1 == (if s0[j].1 is Queued {
                        DispatchState::Dispatched
                    } else {
                        s0[j].1
                    }),
                distinct_coords(picked@),
                forall|k: int|
                    0 <= k < picked@.len() ==> exists|j: int|
                        0 <= j < i && #[trigger] s0[j] == (
                        (#[trigger] picked@[k]).1,
                        DispatchState::Queued(picked@[k].0),
                        ),
                forall|j: int|
                    0 <= j < i && (#[trigger] s0[j]).1 is Queued ==> exists|k: int|
                        0 <= k < picked@.len() && #[trigger] picked@[k] == (
                        s0[j].1->Queued_0,
                        s0[j].0,
                        ),
            decreases s0.len() - i,
        {
            let pair = self.entries[i];
            proof {
                assert(s0[i as int] == pair);
            }
            match pair.1 {
                DispatchState::Queued(p) => {
                    let ghost picked0 = picked@;
                    proof {
                        assert forall|k: int| 0 <= k < picked0.len() implies (
                        #[trigger] picked0[k]).1 != pair.0 by {
                            let j = choose|j: int|
                                0 <= j < i && #[trigger] s0[j] == (
                                picked0[k].1,
                                DispatchState::Queued(picked0[k].0),
                                );
                        }
                    }
                    picked.push((p, pair.0));
                    self.entries[i] = (pair.0, DispatchState::Dispatched);
                    proof {
                        assert(picked@ == picked0.push((p, pair.0)));
                        assert forall|k: int, l: int| 0 <= k < l < picked@.len() implies (
                        #[trigger] picked@[k]).1 != (#[trigger] picked@[l]).1 by {
                            if l < picked0.len() {
                                assert(picked@[k] == picked0[k] && picked@[l] == picked0[l]);
                            } else {
                                assert(picked@[k] == picked0[k] && picked@[l] == (p, pair.0));
                            }
                        }
                        assert forall|k: int| 0 <= k < picked@.len() implies exists|j: int|
                            0 <= j < i + 1 && #[trigger] s0[j] == (
                            (#[trigger] picked@[k]).1,
                            DispatchState::Queued(picked@[k].0),
                            ) by {
                            if k < picked0.len() {
                                assert(picked@[k] == picked0[k]);
                                let j = choose|j: int|
                                    0 <= j < i && #[trigger] s0[j] == (
                                    picked0[k].1,
                                    DispatchState::Queued(picked0[k].0),
                                    );
                            } else {
                                assert(picked@[k] == (p, pair.0));
                                assert(s0[i as int] == (pair.0, DispatchState::Queued(p)));
                            }
                        }
                        assert forall|j: int|
                            0 <= j < i + 1 && (#[trigger] s0[j]).1 is Queued implies exists|k: int|
                            0 <= k < picked@.len() && #[trigger] picked@[k] == (
                            s0[j].1->Queued_0,
                            s0[j].0,
                            ) by {
                            if j < i {
                                let k = choose|k: int|
                                    0 <= k < picked0.len() && #[trigger] picked0[k] == (
                                    s0[j].1->Queued_0,
                                    s0[j].0,
                                    );
                                assert(picked@[k] == picked0[k]);
                            } else {
                                assert(picked@[picked0.len() as int] == (
                                    s0[j].1->Queued_0,
                                    s0[j].0,
                                ));
                            }
                        }
                    }
                },
                DispatchState::Dispatched => {},
            }
            i = i + 1;
        }
        let ghost s1 = self.entries@;
        proof {
            assert forall|a: int, b: int| 0 <= a < b < s1.len() implies (#[trigger] s1[a]).0 != (
            #[trigger] s1[b]).0 by {
                assert(s1[a].0 == s0[a].0 && s1[b].0 == s0[b].0);
            }
            assert forall|c: RegionCoordinate| #[trigger] map_of(s0).dom().contains(c) implies
            map_of(s1).dom().contains(c) && map_of(s1)[c] == (if map_of(s0)[c] is Queued {
                DispatchState::Dispatched
            } else {
                map_of(s0)[c]
            }) by {
                lemma_map_of_dom(s0, c);
                let j = choose|j: int| 0 <= j < s0.len() && (#[trigger] s0[j]).0 == c;
                lemma_map_of_index(s0, j);
                lemma_map_of_index(s1, j);
            }
            assert forall|c: RegionCoordinate| #[trigger] map_of(s1).dom().contains(c) implies
            map_of(s0).dom().contains(c) by {
                lemma_map_of_dom(s1, c);
                let j = choose|j: int| 0 <= j < s1.len() && (#[trigger] s1[j]).0 == c;
                lemma_map_of_dom(s0, c);
                assert(s0[j].0 == c);
            }
            assert(map_of(s1) =~= dispatch_all(map_of(s0)));
            assert forall|k: int| 0 <= k < picked@.len() implies map_of(s0).dom().contains((
            #[trigger] picked@[k]).1) && map_of(s0)[picked@[k].1] == DispatchState::Queued(
                picked@[k].0,
            ) by {
                let j = choose|j: int|
                    0 <= j < s0.len() && #[trigger] s0[j] == (
                    picked@[k].1,
                    DispatchState::Queued(picked@[k].0),
                    );
                lemma_map_of_index(s0, j);
            }
            assert forall|c: RegionCoordinate|
                #[trigger] map_of(s0).dom().contains(c) && map_of(s0)[c] is Queued implies exists|
            k: int| 0 <= k < picked@.len() && (#[trigger] picked@[k]).1 == c by {
                lemma_map_of_dom(s0, c);
                let j = choose|j: int| 0 <= j < s0.len() && (#[trigger] s0[j]).0 == c;
                lemma_map_of_index(s0, j);
                let k = choose|k: int|
                    0 <= k < picked@.len() && #[trigger] picked@[k] == (
                    s0[j].1->Queued_0,
                    s0[j].0,
                    );
                assert(picked@[k].1 == c);
            }
        }
        let sorted = Self::sort_batch(picked);
        proof {
            assert forall|k: int| 0 <= k < sorted@.len() implies map_of(s0).dom().contains((
            #[trigger] sorted@[k]).1) && map_of(s0)[sorted@[k].1] == DispatchState::Queued(
                sorted@[k].0,
            ) by {
                assert(picked@.contains(sorted@[k]));
                let k2 = choose|k2: int|
                    0 <= k2 < picked@.len() && #[trigger] picked@[k2] == sorted@[k];
            }
            assert forall|c: RegionCoordinate|
                #[trigger] map_of(s0).dom().contains(c) && map_of(s0)[c] is Queued implies exists|
            k: int| 0 <= k < sorted@.len() && (#[trigger] sorted@[k]).1 == c by {
                let k2 = choose|k2: int|
                    0 <= k2 < picked@.len() && (#[trigger] picked@[k2]).1 == c;
                assert(sorted@.contains(picked@[k2]));
                let k = choose|k: int|
                    0 <= k < sorted@.len() && #[trigger] sorted@[k] == picked@[k2];
            }
        }
        sorted
    }

    /// Order a drained batch by ascending priority. Keeps exactly the input's
    /// pairs (an insertion sort), so distinct coordinates stay distinct.
    fn sort_batch(input: Vec<(u64, RegionCoordinate)>) -> (r: Vec<(u64, RegionCoordinate)>)
        requires
            distinct_coords(input@),
        ensures
            sorted_by_priority(r@),
            distinct_coords(r@),
            r@.len() == input@.len(),
            forall|e: (u64, RegionCoordinate)| r@.contains(e) <==> input@.contains(e),
    {
        let mut out: Vec<(u64, RegionCoordinate)> = Vec::new();
        let mut i: usize = 0;
        while i < input.len()
            invariant
                distinct_coords(input@),
                i <= input@.len(),
                out@.len() == i,
                sorted_by_priority(out@),
                distinct_coords(out@),
                forall|k: int|
                    0 <= k < out@.len() ==> exists|j: int|
                        0 <= j < i && input@[j] == (#[trigger] out@[k]),
                forall|j: int|
                    0 <= j < i ==> exists|k: int|
                        0 <= k < out@.len() && out@[k] == (#[trigger] input@[j]),
            decreases input@.len() - i,
        {
            let e = input[i];
            let ghost out0 = out@;
            let pos = Self::insert_sorted(&mut out, e);
            proof {
                out0.insert_ensures(pos as int, e);
                let ghost pi = pos as int;
                assert(forall|k: int| 0 <= k < pi ==> #[trigger] out@[k] == out0[k]);
                assert(out@[pi] == e);
                assert forall|k: int| pi < k < out@.len() implies #[trigger] out@[k] == out0[k
                    - 1] by {
                    assert(out0.insert(pi, e)[(k - 1) + 1] == out0[k - 1]);
                }
                assert forall|k: int, l: int| 0 <= k < l < out@.len() implies (
                #[trigger] out@[k]).1 != (#[trigger] out@[l]).1 by {
                    assert forall|k2: int| 0 <= k2 < out0.len() implies (#[trigger] out0[k2]).1
                        != e.1 by {
                        let j = choose|j: int| 0 <= j < i && input@[j] == (#[trigger] out0[k2]);
                        assert(input@[j].1 != input@[i as int].1);
                    }
                }
                assert forall|k: int| 0 <= k < out@.len() implies exists|j: int|
                    0 <= j < i + 1 && input@[j] == (#[trigger] out@[k]) by {
                    if k < pi {
                        let j = choose|j: int| 0 <= j < i && input@[j] == (#[trigger] out0[k]);
                    } else if k == pi {
                        assert(input@[i as int] == out@[k]);
                    } else {
                        let j = choose|j: int|
                            0 <= j < i && input@[j] == (#[trigger] out0[k - 1]);
                    }
                }
                assert forall|j: int| 0 <= j < i + 1 implies exists|k: int|
                    0 <= k < out@.len() && out@[k] == (#[trigger] input@[j]) by {
                    if j == i {
                        assert(out@[pi] == input@[j]);
                    } else {
                        let k0 = choose|k0: int|
                            0 <= k0 < out0.len() && #[trigger] out0[k0] == input@[j];
                        if k0 < pi {
                            assert(out@[k0] == input@[j]);
                        } else {
                            assert(out@[k0 + 1] == input@[j]);
                        }
                    }
                }
            }
            i = i + 1;
        }
        proof {
            assert forall|e: (u64, RegionCoordinate)| out@.contains(e) implies input@.contains(
                e,
            ) by {
                let k = choose|k: int| 0 <= k < out@.len() && #[trigger] out@[k] == e;
                let j = choose|j: int| 0 <= j < i && input@[j] == (#[trigger] out@[k]);
                assert(input@[j] == e);
            }
            assert forall|e: (u64, RegionCoordinate)| input@.contains(e) implies out@.contains(
                e,
            ) by {
                let j = choose|j: int| 0 <= j < input@.len() && #[trigger] input@[j] == e;
                let k = choose|k: int| 0 <= k < out@.len() && out@[k] == (#[trigger] input@[j]);
                assert(out@[k] == e);
            }
        }
        out
    }

    /// Insert one pair into a batch kept in ascending priority order, at the
    /// position that keeps it ordered.
    fn insert_sorted(out: &mut Vec<(u64, RegionCoordinate)>, e: (u64, RegionCoordinate)) -> (pos:
        usize)
        requires
            sorted_by_priority(old(out)@),
        ensures
            pos <= old(out)@.len(),
            final(out)@ == old(out)@.insert(pos as int, e),
            sorted_by_priority(final(out)@),
    {
        let ghost out0 = out@;
        let mut p: usize = 0;
        while p < out.len() && out[p].0 <= e.0
            invariant
                out@ == out0,
                p <= out@.len(),
                forall|k: int| 0 <= k < p ==> (#[trigger] out@[k]).0 <= e.0,
            decreases out@.len() - p,
        {
            p = p + 1;
        }
        proof {
            out0.insert_ensures(p as int, e);
        }
        out.insert(p, e);
        proof {
            let ghost pi = p as int;
            assert(forall|k: int| 0 <= k < pi ==> #[trigger] out@[k] == out0[k]);
            assert(out@[pi] == e);
            assert forall|k: int| pi < k < out@.len() implies #[trigger] out@[k] == out0[k - 1] by {
                assert(out0.insert(pi, e)[(k - 1) + 1] == out0[k - 1]);
            }
            assert forall|k: int| pi < k < out@.len() implies e.0 <= (#[trigger] out@[k]).0 by {
                if k - 1 > pi - 1 + 1 {
                    assert(out0[pi].0 <= out0[k - 1].0);
                }
            }
            assert forall|k: int, l: int| 0 <= k < l < out@.len() implies (#[trigger] out@[k]).0
                <= (#[trigger] out@[l]).0 by {
                if k < pi && l < pi {
                    assert(out@[k] == out0[k] && out@[l] == out0[l]);
                } else if k < pi && l == pi {
                    assert(out@[k] == out0[k]);
                } else if k < pi && l > pi {
                    assert(out@[k] == out0[k] && out@[l] == out0[l - 1]);
                    assert(out0[k].0 <= e.0);
                } else if k == pi {
                } else {
                    assert(out@[k] == out0[k - 1] && out@[l] == out0[l - 1]);
                    assert(out0[k - 1].0 <= out0[l - 1].0);
                }
            }
        }
        p
    }
}

} // verus!
