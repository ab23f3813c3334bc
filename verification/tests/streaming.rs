//! Streaming behaviour: registry semantics, view diffing, merging and
//! eviction, driven through the public controller and component APIs.

use crystal::block::Block;
use crystal::control::{StreamingController, ViewerViewState};
use crystal::coord::{RegionCoordinate, RegionView};
use crystal::grid::VoxelGrid;
use crystal::registry::{DispatchState, PendingRegistry, RegistryError};
use crystal::store::WorldStore;
use crystal::view::diff_regions;

#[test]
fn distance_squared_exact() {
    let a = RegionCoordinate::new(0, 0);
    let b = RegionCoordinate::new(3, 4);
    assert_eq!(a.distance_squared(b), 25);
    assert_eq!(b.distance_squared(a), 25);
    assert_eq!(a.distance_squared(a), 0);
}

#[test]
fn distance_squared_saturates() {
    let a = RegionCoordinate::new(i32::MIN, i32::MIN);
    let b = RegionCoordinate::new(i32::MAX, i32::MAX);
    assert_eq!(a.distance_squared(b), u64::MAX);
}

#[test]
fn request_twice_keeps_min_priority() {
    let mut reg = PendingRegistry::new();
    let c = RegionCoordinate::new(5, 5);
    reg.request(c, 25);
    reg.request(c, 4);
    assert_eq!(reg.get(c), Some(DispatchState::Queued(4)));
    reg.request(c, 100);
    assert_eq!(reg.get(c), Some(DispatchState::Queued(4)));
}

#[test]
fn complete_then_request_is_fresh() {
    let mut reg = PendingRegistry::new();
    let c = RegionCoordinate::new(2, -7);
    reg.request(c, 9);
    let batch = reg.drain_sendable();
    assert_eq!(batch, vec![(9, c)]);
    assert_eq!(reg.complete(c), Ok(()));
    assert_eq!(reg.get(c), None);
    reg.request(c, 36);
    assert_eq!(reg.get(c), Some(DispatchState::Queued(36)));
}

#[test]
fn drain_never_returns_dispatched_again() {
    let mut reg = PendingRegistry::new();
    let c = RegionCoordinate::new(1, 1);
    reg.request(c, 3);
    let first = reg.drain_sendable();
    assert_eq!(first, vec![(3, c)]);
    // a new request for an in-flight coordinate is a no-op
    reg.request(c, 1);
    assert_eq!(reg.get(c), Some(DispatchState::Dispatched));
    let second = reg.drain_sendable();
    assert!(second.is_empty());
}

#[test]
fn drain_orders_by_ascending_priority() {
    let mut reg = PendingRegistry::new();
    let far = RegionCoordinate::new(9, 9);
    let near = RegionCoordinate::new(1, 0);
    let mid = RegionCoordinate::new(3, 3);
    reg.request(far, 162);
    reg.request(near, 1);
    reg.request(mid, 18);
    let batch = reg.drain_sendable();
    assert_eq!(batch, vec![(1, near), (18, mid), (162, far)]);
}

#[test]
fn complete_missing_is_reported() {
    let mut reg = PendingRegistry::new();
    let c = RegionCoordinate::new(0, 0);
    assert_eq!(reg.complete(c), Err(RegistryError::Missing));
}

#[test]
fn complete_queued_is_reported() {
    let mut reg = PendingRegistry::new();
    let c = RegionCoordinate::new(0, 0);
    reg.request(c, 7);
    assert_eq!(reg.complete(c), Err(RegistryError::StillQueued));
    // the entry survives the bad completion
    assert_eq!(reg.get(c), Some(DispatchState::Queued(7)));
}

#[test]
fn resubmit_failed_requeues_at_top_priority() {
    let mut reg = PendingRegistry::new();
    let c = RegionCoordinate::new(4, 4);
    reg.request(c, 32);
    let batch = reg.drain_sendable();
    assert_eq!(batch, vec![(32, c)]);
    reg.resubmit_failed(c);
    assert_eq!(reg.get(c), Some(DispatchState::Queued(0)));
    let retry = reg.drain_sendable();
    assert_eq!(retry, vec![(0, c)]);
}

#[test]
fn resubmit_failed_ignores_queued_and_missing() {
    let mut reg = PendingRegistry::new();
    let c = RegionCoordinate::new(4, 4);
    reg.resubmit_failed(c);
    assert_eq!(reg.get(c), None);
    reg.request(c, 5);
    reg.resubmit_failed(c);
    assert_eq!(reg.get(c), Some(DispatchState::Queued(5)));
}

#[test]
fn view_diff_moving_east_exposes_edge_column() {
    let old_view = RegionView::new(RegionCoordinate::new(0, 0), 2);
    let new_view = RegionView::new(RegionCoordinate::new(1, 0), 2);
    let entered = diff_regions(new_view, Some(old_view));
    assert_eq!(entered.len(), 5);
    for c in &entered {
        assert_eq!(c.x, 3);
    }
    let left = diff_regions(old_view, Some(new_view));
    assert_eq!(left.len(), 5);
    for c in &left {
        assert_eq!(c.x, -2);
    }
}

#[test]
fn first_tick_sees_whole_view() {
    let view = RegionView::new(RegionCoordinate::new(7, -3), 1);
    let entered = diff_regions(view, None);
    assert_eq!(entered.len(), 9);
    for dx in -1..=1 {
        for dz in -1..=1 {
            let c = RegionCoordinate::new(7 + dx, -3 + dz);
            assert!(entered.contains(&c));
        }
    }
}

#[test]
fn viewer_join_requests_nine_regions() {
    let mut ctl = StreamingController::new();
    let mut vs = ViewerViewState::new();
    let center = RegionCoordinate::new(0, 0);
    ctl.viewer_tick(&mut vs, center, 1);
    for dx in -1..=1 {
        for dz in -1..=1 {
            let c = RegionCoordinate::new(dx, dz);
            let expected = (dx * dx + dz * dz) as u64;
            assert_eq!(ctl.registry.get(c), Some(DispatchState::Queued(expected)));
        }
    }
    assert_eq!(ctl.registry.len(), 9);
    let batch = ctl.take_dispatch_batch();
    assert_eq!(batch.len(), 9);
    assert_eq!(batch[0], (0, center));
    for i in 1..batch.len() {
        assert!(batch[i - 1].0 <= batch[i].0);
    }
    for (_, c) in batch {
        assert_eq!(ctl.accept_result(c, VoxelGrid::filled(Block::Stone)), Ok(()));
    }
    assert_eq!(ctl.store.grid_count(), 9);
    assert_eq!(ctl.registry.len(), 0);
}

#[test]
fn two_viewers_one_entry_min_priority() {
    let mut ctl = StreamingController::new();
    let target = RegionCoordinate::new(5, 5);

    // one viewer two regions away, one five regions away
    let mut near = ViewerViewState::new();
    ctl.viewer_tick(&mut near, RegionCoordinate::new(5, 3), 2);
    assert_eq!(ctl.registry.get(target), Some(DispatchState::Queued(4)));

    let mut far = ViewerViewState::new();
    ctl.viewer_tick(&mut far, RegionCoordinate::new(5, 0), 5);
    assert_eq!(ctl.registry.get(target), Some(DispatchState::Queued(4)));
    assert_eq!(ctl.store.viewer_count(target), 2);

    // a single dispatch and merge satisfies both viewers
    let batch = ctl.take_dispatch_batch();
    let mut seen = 0;
    for (_, c) in &batch {
        if *c == target {
            seen += 1;
        }
    }
    assert_eq!(seen, 1);
    assert_eq!(ctl.accept_result(target, VoxelGrid::filled(Block::Dirt)), Ok(()));
    assert!(ctl.store.contains_grid(target));
    ctl.evict_unviewed();
    assert!(ctl.store.contains_grid(target));
}

#[test]
fn eviction_after_last_viewer_leaves() {
    let mut ctl = StreamingController::new();
    let c = RegionCoordinate::new(0, 0);
    let mut vs = ViewerViewState::new();
    ctl.viewer_tick(&mut vs, c, 0);
    let batch = ctl.take_dispatch_batch();
    assert_eq!(batch, vec![(0, c)]);
    assert_eq!(ctl.accept_result(c, VoxelGrid::filled(Block::Stone)), Ok(()));
    assert_eq!(ctl.store.viewer_count(c), 1);

    ctl.evict_unviewed();
    assert!(ctl.store.contains_grid(c));

    ctl.viewer_leave(vs);
    assert_eq!(ctl.store.viewer_count(c), 0);
    ctl.evict_unviewed();
    assert!(!ctl.store.contains_grid(c));
}

#[test]
fn eviction_never_removes_watched_regions() {
    let mut store = WorldStore::new();
    let watched = RegionCoordinate::new(1, 2);
    let orphan = RegionCoordinate::new(3, 4);
    store.insert_grid(watched, VoxelGrid::filled(Block::Stone));
    store.insert_grid(orphan, VoxelGrid::filled(Block::Stone));
    store.viewer_inc(watched);
    store.evict_unviewed();
    assert!(store.contains_grid(watched));
    assert!(!store.contains_grid(orphan));
    assert_eq!(store.grid_count(), 1);
}

#[test]
fn stray_result_is_rejected_and_dropped() {
    let mut ctl = StreamingController::new();
    let c = RegionCoordinate::new(8, 8);
    assert_eq!(
        ctl.accept_result(c, VoxelGrid::filled(Block::Stone)),
        Err(RegistryError::Missing)
    );
    assert!(!ctl.store.contains_grid(c));

    // queued but never dispatched: also an invariant violation
    let mut vs = ViewerViewState::new();
    ctl.viewer_tick(&mut vs, c, 0);
    assert_eq!(
        ctl.accept_result(c, VoxelGrid::filled(Block::Stone)),
        Err(RegistryError::StillQueued)
    );
    assert!(!ctl.store.contains_grid(c));
    assert_eq!(ctl.registry.get(c), Some(DispatchState::Queued(0)));
}

#[test]
fn viewer_counts_follow_moves() {
    let mut ctl = StreamingController::new();
    let mut vs = ViewerViewState::new();
    ctl.viewer_tick(&mut vs, RegionCoordinate::new(0, 0), 1);
    assert_eq!(ctl.store.viewer_count(RegionCoordinate::new(-1, -1)), 1);
    assert_eq!(ctl.store.viewer_count(RegionCoordinate::new(0, 0)), 1);
    // move one region east: the west edge is no longer watched
    ctl.viewer_tick(&mut vs, RegionCoordinate::new(1, 0), 1);
    assert_eq!(ctl.store.viewer_count(RegionCoordinate::new(-1, -1)), 0);
    assert_eq!(ctl.store.viewer_count(RegionCoordinate::new(2, 0)), 1);
    assert_eq!(ctl.store.viewer_count(RegionCoordinate::new(0, 0)), 1);
}

#[test]
fn world_store_block_edits() {
    let mut store = WorldStore::new();
    let c = RegionCoordinate::new(0, 0);
    assert_eq!(store.get_block(c, 3, 100, 5), None);
    store.insert_grid(c, VoxelGrid::filled(Block::Stone));
    assert_eq!(store.get_block(c, 3, 100, 5), Some(Block::Stone));
    assert!(store.set_block(c, 3, 100, 5, Block::Air));
    assert_eq!(store.get_block(c, 3, 100, 5), Some(Block::Air));
    assert_eq!(store.get_block(c, 3, 99, 5), Some(Block::Stone));
    assert!(!store.set_block(RegionCoordinate::new(9, 9), 0, 0, 0, Block::Air));
}

#[test]
fn region_lifecycle_absent_queued_dispatched_merged_evicted() {
    let mut ctl = StreamingController::new();
    let c = RegionCoordinate::new(-4, 9);
    assert_eq!(ctl.registry.get(c), None);
    assert!(!ctl.store.contains_grid(c));

    // absent -> queued
    let mut vs = ViewerViewState::new();
    ctl.viewer_tick(&mut vs, c, 0);
    assert_eq!(ctl.registry.get(c), Some(DispatchState::Queued(0)));

    // queued -> dispatched, exactly once
    let batch = ctl.take_dispatch_batch();
    assert_eq!(batch, vec![(0, c)]);
    assert_eq!(ctl.registry.get(c), Some(DispatchState::Dispatched));
    assert!(ctl.take_dispatch_batch().is_empty());

    // dispatched -> merged: out of the registry, into the store
    assert_eq!(ctl.accept_result(c, VoxelGrid::filled(Block::Dirt)), Ok(()));
    assert_eq!(ctl.registry.get(c), None);
    assert!(ctl.store.contains_grid(c));

    // a viewer still watches: eviction leaves it alone
    ctl.evict_unviewed();
    assert!(ctl.store.contains_grid(c));

    // viewer count reaches zero -> evicted
    ctl.viewer_leave(vs);
    ctl.evict_unviewed();
    assert!(!ctl.store.contains_grid(c));

    // the registry kept no memory: a fresh request starts over
    let mut vs2 = ViewerViewState::new();
    ctl.viewer_tick(&mut vs2, c, 0);
    assert_eq!(ctl.registry.get(c), Some(DispatchState::Queued(0)));
}
