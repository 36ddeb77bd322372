use chunk_stream::key::MeshId;
use chunk_stream::manager::StreamingManager;

/// Runs every queued job to completion, reporting success for each.
fn run_workers(m: &mut StreamingManager) {
    while let Some(job) = m.next_job() {
        m.submit(job.id, job.key, true);
    }
}

/// Ticks the manager at a fixed position, installing one ready result per
/// tick, until nothing more is offered.  Returns the installed keys with
/// the handles they got.
fn install_all(m: &mut StreamingManager, wx: i32, wz: i32, next_handle: &mut u64) -> Vec<(MeshId, u64)> {
    let mut installed = Vec::new();
    loop {
        let out = m.update(wx, wz);
        assert!(out.evicted.is_empty());
        match out.ready {
            Some(rr) => {
                let h = *next_handle;
                *next_handle += 1;
                assert!(m.install(rr.key, h));
                installed.push((rr.key, h));
            }
            None => break,
        }
    }
    installed
}

#[test]
fn first_update_dispatches_wanted_set() {
    let mut m = StreamingManager::new(2, 0);
    let out = m.update(0, 0);
    assert!(!out.stalled);
    assert!(out.evicted.is_empty());
    assert!(out.ready.is_none());
    assert_eq!(m.pool.len(), 1);
    assert!(m.is_pending(MeshId(0, 0)));
    assert!(!m.is_live(MeshId(0, 0)));
}

#[test]
fn nearest_first_dispatch_order() {
    let mut m = StreamingManager::new(2, 2);
    m.update(0, 0);
    let mut order = Vec::new();
    while let Some(job) = m.next_job() {
        order.push(job.key);
        m.submit(job.id, job.key, true);
    }
    // radius 2 around the origin: 13 cells pass the distance test
    assert_eq!(order.len(), 13);
    assert_eq!(order[0], MeshId(0, 0));
    let pos_near = order.iter().position(|k| *k == MeshId(0, 1)).unwrap();
    let pos_far = order.iter().position(|k| *k == MeshId(2, 0)).unwrap();
    assert!(pos_near < pos_far);
    // the window corners are outside the radius
    assert!(!order.contains(&MeshId(2, 2)));
    assert!(!order.contains(&MeshId(-2, -2)));
}

#[test]
fn update_is_idempotent_at_a_fixed_position() {
    let mut m = StreamingManager::new(2, 1);
    let first = m.update(0, 0);
    assert!(!first.stalled);
    let queued = m.pool.len();
    assert_eq!(queued, 5);
    let second = m.update(0, 0);
    assert!(second.evicted.is_empty());
    assert!(second.ready.is_none());
    assert!(!second.stalled);
    assert_eq!(m.pool.len(), queued);
}

#[test]
fn round_trip_installs_exactly_once() {
    let mut m = StreamingManager::new(1, 0);
    m.update(0, 0);
    let job = m.next_job().unwrap();
    assert_eq!(job.key, MeshId(0, 0));
    assert_eq!(job.origin_x, 0);
    m.submit(job.id, job.key, true);
    let out = m.update(0, 0);
    let rr = out.ready.expect("completed result should be offered");
    assert_eq!(rr.key, MeshId(0, 0));
    assert!(m.install(rr.key, 7));
    assert!(!m.install(rr.key, 8), "a result must be handed over only once");
    assert_eq!(m.live_handle(MeshId(0, 0)), Some(7));
    assert!(!m.is_pending(MeshId(0, 0)));
    let after = m.update(0, 0);
    assert!(after.ready.is_none());
}

#[test]
fn eviction_before_pickup_skips_the_job() {
    let mut m = StreamingManager::new(2, 0);
    m.update(0, 0);
    // the job for (0, 0) is still queued when the viewpoint moves a cell
    let out = m.update(32, 0);
    assert!(out.evicted.is_empty(), "nothing was live yet");
    let mut generated = Vec::new();
    while let Some(job) = m.next_job() {
        generated.push(job.key);
        m.submit(job.id, job.key, true);
    }
    // the worker never generates the evicted cell
    assert_eq!(generated.iter().filter(|k| **k == MeshId(0, 0)).count(), 0);
    assert_eq!(generated, vec![MeshId(1, 0)]);
}

#[test]
fn result_after_cancellation_is_discarded() {
    let mut m = StreamingManager::new(2, 0);
    m.update(0, 0);
    // a worker picks the job up before the viewpoint moves
    let stale = m.next_job().unwrap();
    assert_eq!(stale.key, MeshId(0, 0));
    m.update(32, 0);
    // the worker finishes anyway; the manager has lost interest
    m.submit(stale.id, stale.key, true);
    let out = m.update(32, 0);
    assert!(out.ready.is_none(), "a stale result must not be offered");
    assert!(!m.is_live(MeshId(0, 0)));
    // the fresh cell still streams in normally
    run_workers(&mut m);
    let out = m.update(32, 0);
    let rr = out.ready.expect("the wanted cell should complete");
    assert_eq!(rr.key, MeshId(1, 0));
    assert!(m.install(rr.key, 1));
}

#[test]
fn generation_failure_returns_key_to_absent() {
    let mut m = StreamingManager::new(1, 0);
    m.update(0, 0);
    let job = m.next_job().unwrap();
    m.submit(job.id, job.key, false);
    let out = m.update(0, 0);
    assert!(out.ready.is_none());
    assert!(!m.is_pending(MeshId(0, 0)));
    assert!(!m.is_live(MeshId(0, 0)));
    // no retry until the wanted set is recomputed
    m.update(0, 0);
    assert_eq!(m.pool.len(), 0);
    // a recompute makes the key eligible again
    m.update(32, 0);
    m.update(0, 0);
    assert!(m.is_pending(MeshId(0, 0)));
}

#[test]
fn closed_pool_defers_dispatch() {
    let mut m = StreamingManager::new(0, 0);
    let out = m.update(0, 0);
    assert!(out.stalled);
    assert_eq!(m.pool.len(), 0);
    assert!(!m.is_pending(MeshId(0, 0)));
}

#[test]
fn worker_death_closes_the_pool() {
    let mut m = StreamingManager::new(1, 0);
    m.worker_exit();
    let out = m.update(0, 0);
    assert!(out.stalled);
    assert_eq!(m.pool.len(), 0);
}

#[test]
fn end_to_end_window_shift() {
    let mut m = StreamingManager::new(2, 1);
    let mut next_handle: u64 = 100;
    let out = m.update(0, 0);
    assert!(!out.stalled);
    let wanted = [
        MeshId(0, 0),
        MeshId(1, 0),
        MeshId(-1, 0),
        MeshId(0, 1),
        MeshId(0, -1),
    ];
    for k in wanted {
        assert!(m.is_pending(k));
    }
    run_workers(&mut m);
    let installed = install_all(&mut m, 0, 0, &mut next_handle);
    assert_eq!(installed.len(), 5);
    for k in wanted {
        assert!(m.is_live(k));
        assert!(!m.is_pending(k));
    }
    // move one cell: three keys leave, three enter, two stay untouched
    let handle_of = |keys: &Vec<(MeshId, u64)>, k: MeshId| {
        keys.iter().find(|(kk, _)| *kk == k).unwrap().1
    };
    let kept_a = m.live_handle(MeshId(0, 0)).unwrap();
    let kept_b = m.live_handle(MeshId(1, 0)).unwrap();
    let out = m.update(32, 0);
    assert_eq!(out.evicted.len(), 3);
    for gone in [MeshId(-1, 0), MeshId(0, 1), MeshId(0, -1)] {
        assert!(out.evicted.contains(&handle_of(&installed, gone)));
        assert!(!m.is_live(gone));
        assert!(!m.is_pending(gone));
    }
    for fresh in [MeshId(2, 0), MeshId(1, 1), MeshId(1, -1)] {
        assert!(m.is_pending(fresh));
    }
    assert_eq!(m.live_handle(MeshId(0, 0)), Some(kept_a));
    assert_eq!(m.live_handle(MeshId(1, 0)), Some(kept_b));
    // finish the new column
    run_workers(&mut m);
    let more = install_all(&mut m, 32, 0, &mut next_handle);
    assert_eq!(more.len(), 3);
    for k in [
        MeshId(1, 0),
        MeshId(2, 0),
        MeshId(0, 0),
        MeshId(1, 1),
        MeshId(1, -1),
    ] {
        assert!(m.is_live(k));
    }
}

#[test]
fn boundary_radius_zero_window() {
    let mut m = StreamingManager::new(2, 0);
    let mut next_handle: u64 = 1;
    m.update(0, 0);
    run_workers(&mut m);
    let installed = install_all(&mut m, 0, 0, &mut next_handle);
    assert_eq!(installed.len(), 1);
    assert_eq!(installed[0].0, MeshId(0, 0));
    let h = installed[0].1;
    // one cell over: the old cell is evicted, only the new one is wanted
    let out = m.update(32, 0);
    assert_eq!(out.evicted, vec![h]);
    assert!(!m.is_live(MeshId(0, 0)));
    assert!(m.is_pending(MeshId(1, 0)));
    assert!(!m.is_pending(MeshId(0, 0)));
}

#[test]
fn ready_result_carries_world_origin() {
    let mut m = StreamingManager::new(1, 1);
    m.update(-64, 96);
    // the viewpoint cell is (-2, 3); complete everything and check one origin
    run_workers(&mut m);
    let mut seen = false;
    for _ in 0..16 {
        let out = m.update(-64, 96);
        match out.ready {
            Some(rr) => {
                assert_eq!(rr.origin_x as i64, rr.key.0 as i64 * 32);
                assert_eq!(rr.origin_z as i64, rr.key.1 as i64 * 32);
                if rr.key == MeshId(-2, 3) {
                    seen = true;
                }
                assert!(m.install(rr.key, 1));
            }
            None => break,
        }
    }
    assert!(seen);
}

#[test]
fn explicit_dispatch_after_failure() {
    let mut m = StreamingManager::new(1, 0);
    m.update(0, 0);
    let job = m.next_job().unwrap();
    m.submit(job.id, job.key, false);
    m.update(0, 0);
    assert!(!m.is_pending(MeshId(0, 0)) && !m.is_live(MeshId(0, 0)));
    // the caller may re-dispatch the absent wanted key directly
    assert!(m.dispatch(MeshId(0, 0)).is_ok());
    assert!(m.is_pending(MeshId(0, 0)));
    let retry = m.next_job().unwrap();
    assert_eq!(retry.key, MeshId(0, 0));
    assert!(retry.id > job.id, "the retry runs under a fresh identifier");
}

#[test]
fn explicit_dispatch_fails_on_closed_pool() {
    let mut m = StreamingManager::new(0, 0);
    let out = m.update(0, 0);
    assert!(out.stalled);
    assert!(m.dispatch(MeshId(0, 0)).is_err());
    assert!(!m.is_pending(MeshId(0, 0)));
}

#[test]
fn far_jump_replaces_the_whole_window() {
    let mut m = StreamingManager::new(2, 1);
    let mut next_handle: u64 = 1;
    m.update(0, 0);
    run_workers(&mut m);
    let installed = install_all(&mut m, 0, 0, &mut next_handle);
    assert_eq!(installed.len(), 5);
    // jump so far that the old and new windows share no cell
    let out = m.update(100 * 32, 100 * 32);
    assert_eq!(out.evicted.len(), 5, "every resident cell is evicted");
    for (k, _) in &installed {
        assert!(!m.is_live(*k));
        assert!(!m.is_pending(*k));
    }
    for k in [
        MeshId(100, 100),
        MeshId(101, 100),
        MeshId(99, 100),
        MeshId(100, 101),
        MeshId(100, 99),
    ] {
        assert!(m.is_pending(k));
    }
    run_workers(&mut m);
    let fresh = install_all(&mut m, 100 * 32, 100 * 32, &mut next_handle);
    assert_eq!(fresh.len(), 5);
}

#[test]
fn load_region_reports_evictions_and_deferral() {
    let mut m = StreamingManager::new(1, 0);
    let (evicted, stalled) = m.load_region(MeshId(5, 5));
    assert!(evicted.is_empty());
    assert!(!stalled);
    assert!(m.is_pending(MeshId(5, 5)));
    // complete and install, then recompute around a different cell
    let job = m.next_job().unwrap();
    m.submit(job.id, job.key, true);
    let out = m.update(5 * 32, 5 * 32);
    let rr = out.ready.unwrap();
    assert!(m.install(rr.key, 42));
    let (evicted, stalled) = m.load_region(MeshId(6, 5));
    assert_eq!(evicted, vec![42]);
    assert!(!stalled);
    assert!(m.is_pending(MeshId(6, 5)));
}
