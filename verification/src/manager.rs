//! The streaming manager: tracks, for every grid key, whether its content
//! is absent, pending in the worker pool, or live in the owning store, and
//! moves keys between those states as the viewpoint moves.

use crate::key::{
    cell_of, center_in_bounds, dist2, in_radius, world_to_chunk_space, MeshId, CELL_SIZE,
    MAX_RADIUS,
};
use crate::pool::Pool;
use vstd::prelude::*;

verus! {

/// A generation job waiting in the pool: which cell to generate and the
/// world-space origin the result will be installed at.
#[derive(Clone, Copy, PartialEq, Eq, Structural, Debug)]
pub struct Job {
    pub id: u64,
    pub key: MeshId,
    pub origin_x: i64,
    pub origin_z: i64,
}

/// A key whose generation job is in flight, with the payload needed to
/// install the finished result.
#[derive(Clone, Copy, PartialEq, Eq, Structural, Debug)]
pub struct PendingEntry {
    pub key: MeshId,
    pub job: u64,
    pub origin_x: i64,
    pub origin_z: i64,
}

/// A key whose content is installed in the owning store, with the handle
/// the store returned for it.
#[derive(Clone, Copy, PartialEq, Eq, Structural, Debug)]
pub struct LiveEntry {
    pub key: MeshId,
    pub handle: u64,
}

/// A worker's report that it finished a job, successfully or not.
#[derive(Clone, Copy, PartialEq, Eq, Structural, Debug)]
pub struct Completion {
    pub id: u64,
    pub key: MeshId,
    pub ok: bool,
}

/// A finished result the caller should now install into the owning store.
#[derive(Clone, Copy, PartialEq, Eq, Structural, Debug)]
pub struct ReadyResult {
    pub key: MeshId,
    pub origin_x: i64,
    pub origin_z: i64,
}

/// What one tick of `update` asks the caller to do.
pub struct UpdateOutcome {
    /// Handles of evicted entries; detach each from the owning store.
    pub evicted: Vec<u64>,
    /// At most one finished result to install, acknowledged with `install`.
    pub ready: Option<ReadyResult>,
    /// Dispatching was deferred because the pool can accept no work; the
    /// manager retries on a later tick.
    pub stalled: bool,
}

/// The streaming manager.  Owns the job queue of its worker pool and all
/// per-key bookkeeping; the caller runs the worker threads and the owning
/// store around it.
pub struct StreamingManager {
    /// Whether a viewpoint has been recorded yet.
    pub started: bool,
    /// Grid cell of the last recorded viewpoint.
    pub center: MeshId,
    /// Radius, in cells, of the wanted window around the center.
    pub radius: i32,
    /// Next unused job identifier.
    pub next_id: u64,
    /// The worker pool's shared job queue.
    pub pool: Pool<Job>,
    /// Keys whose generation is in flight.
    pub pending: Vec<PendingEntry>,
    /// Keys installed in the owning store.
    pub live: Vec<LiveEntry>,
    /// Identifiers of jobs whose result is no longer wanted; a worker
    /// finding its job here skips it at pickup.
    pub retired: Vec<u64>,
    /// Completions reported by workers and not yet drained.
    pub inbox: Vec<Completion>,
    /// A recompute found the pool unable to accept work; the missing keys
    /// are re-collected on the next tick.
    pub stalled: bool,
}

impl StreamingManager {
    /// Whether some pending entry is for key `k`.
    pub open spec fn has_pending(self, k: MeshId) -> bool {
        exists|i: int| 0 <= i < self.pending@.len() && self.pending@[i].key == k
    }

    /// Whether some live entry is for key `k`.
    pub open spec fn has_live(self, k: MeshId) -> bool {
        exists|i: int| 0 <= i < self.live@.len() && self.live@[i].key == k
    }

    /// Whether key `k` is wanted by the current viewpoint.
    pub open spec fn wanted(self, k: MeshId) -> bool {
        self.started && in_radius(k, self.center, self.radius as int)
    }

    /// The job queue of the pool, front first.
    pub open spec fn queue(self) -> Seq<Job> {
        self.pool.jobs()
    }

    /// Whether job identifier `id` has been retired.
    pub open spec fn is_retired(self, id: u64) -> bool {
        self.retired@.contains(id)
    }

    /// The world-space origin a key's content is installed at.
    pub open spec fn origin_of(k: MeshId) -> (int, int) {
        ((k.0 as int) * (CELL_SIZE as int), (k.1 as int) * (CELL_SIZE as int))
    }

    /// Whether a pending entry carries the origin derived from its key.
    pub open spec fn entry_origin_ok(e: PendingEntry) -> bool {
        (e.origin_x as int, e.origin_z as int) == Self::origin_of(e.key)
    }

    /// The internal invariant: each key is in at most one of the pending
    /// and live sets, everything tracked is wanted by the current
    /// viewpoint, job identifiers are unique and below `next_id`, and
    /// every queued job either is retired or belongs to a pending entry.
    pub open spec fn wf(self) -> bool {
        &&& 0 <= self.radius <= MAX_RADIUS
        &&& self.started ==> center_in_bounds(self.center)
        &&& !self.started ==> self.pending@.len() == 0 && self.live@.len() == 0 && self.queue().len()
            == 0
        // distinct keys and job identifiers among pending entries
        &&& forall|i: int, j: int|
            0 <= i < j < self.pending@.len() ==> self.pending@[i].key != self.pending@[j].key
                && self.pending@[i].job != self.pending@[j].job
        // distinct keys among live entries
        &&& forall|i: int, j: int|
            0 <= i < j < self.live@.len() ==> self.live@[i].key != self.live@[j].key
        // a key is never both pending and live
        &&& forall|i: int, j: int|
            0 <= i < self.pending@.len() && 0 <= j < self.live@.len() ==> self.pending@[i].key
                != self.live@[j].key
        // everything pending or live is wanted
        &&& forall|i: int|
            0 <= i < self.pending@.len() ==> self.wanted(#[trigger] self.pending@[i].key)
        &&& forall|i: int| 0 <= i < self.live@.len() ==> self.wanted(#[trigger] self.live@[i].key)
        // pending entries carry the origin of their key
        &&& forall|i: int|
            0 <= i < self.pending@.len() ==> Self::entry_origin_ok(#[trigger] self.pending@[i])
        // identifier freshness
        &&& forall|i: int| 0 <= i < self.pending@.len() ==> (#[trigger] self.pending@[i].job) < self.next_id
        &&& forall|i: int| 0 <= i < self.queue().len() ==> (#[trigger] self.queue()[i].id) < self.next_id
        &&& forall|i: int| 0 <= i < self.retired@.len() ==> (#[trigger] self.retired@[i]) < self.next_id
        &&& forall|i: int| 0 <= i < self.inbox@.len() ==> (#[trigger] self.inbox@[i].id) < self.next_id
        // a pending entry's job is never retired
        &&& forall|i: int| 0 <= i < self.pending@.len() ==> !self.is_retired(#[trigger] self.pending@[i].job)
        // distinct job identifiers in the queue
        &&& forall|i: int, j: int|
            0 <= i < j < self.queue().len() ==> self.queue()[i].id != self.queue()[j].id
        // every queued job is retired or matches a pending entry
        &&& forall|i: int|
            0 <= i < self.queue().len() ==> self.is_retired((#[trigger] self.queue()[i]).id)
                || exists|p: int|
                0 <= p < self.pending@.len() && (#[trigger] self.pending@[p]).job
                    == self.queue()[i].id && self.pending@[p].key == self.queue()[i].key
                    && self.pending@[p].origin_x == self.queue()[i].origin_x
                    && self.pending@[p].origin_z == self.queue()[i].origin_z
    }

    /// A manager with `workers` pool workers and the given radius, with no
    /// viewpoint recorded and nothing tracked.
    pub fn new(workers: usize, radius: i32) -> (m: StreamingManager)
        requires
            0 <= radius <= MAX_RADIUS,
        ensures
            m.wf(),
            !m.started,
            !m.stalled,
            m.radius == radius,
            m.next_id == 0,
            m.pool.workers() == workers as nat,
            m.pending@.len() == 0,
            m.live@.len() == 0,
            m.queue().len() == 0,
            m.retired@.len() == 0,
            m.inbox@.len() == 0,
    {
        StreamingManager {
            started: false,
            center: MeshId(0, 0),
            radius,
            next_id: 0,
            pool: Pool::new(workers),
            pending: Vec::new(),
            live: Vec::new(),
            retired: Vec::new(),
            inbox: Vec::new(),
            stalled: false,
        }
    }

    /// Index of the pending entry for key `k`, if any.
    fn find_pending(&self, k: MeshId) -> (r: Option<usize>)
        ensures
            match r {
                Some(i) => i < self.pending@.len() && self.pending@[i as int].key == k,
                None => !self.has_pending(k),
            },
    {
        let mut i: usize = 0;
        while i < self.pending.len()
            invariant
                i <= self.pending@.len(),
                forall|t: int| 0 <= t < i ==> self.pending@[t].key != k,
            decreases self.pending@.len() - i,
        {
            if self.pending[i].key == k {
                return Some(i);
            }
            i = i + 1;
        }
        None
    }

    /// Index of the pending entry with job identifier `id` and key `k`.
    fn find_pending_job(&self, id: u64, k: MeshId) -> (r: Option<usize>)
        ensures
            match r {
                Some(i) => i < self.pending@.len() && self.pending@[i as int].job == id
                    && self.pending@[i as int].key == k,
                None => forall|t: int|
                    0 <= t < self.pending@.len() ==> !((#[trigger] self.pending@[t]).job == id
                        && self.pending@[t].key == k),
            },
    {
        let mut i: usize = 0;
        while i < self.pending.len()
            invariant
                i <= self.pending@.len(),
                forall|t: int|
                    0 <= t < i ==> !((#[trigger] self.pending@[t]).job == id
                        && self.pending@[t].key == k),
            decreases self.pending@.len() - i,
        {
            if self.pending[i].job == id && self.pending[i].key == k {
                return Some(i);
            }
            i = i + 1;
        }
        None
    }

    /// Index of the live entry for key `k`, if any.
    fn find_live(&self, k: MeshId) -> (r: Option<usize>)
        ensures
            match r {
                Some(i) => i < self.live@.len() && self.live@[i as int].key == k,
                None => !self.has_live(k),
            },
    {
        let mut i: usize = 0;
        while i < self.live.len()
            invariant
                i <= self.live@.len(),
                forall|t: int| 0 <= t < i ==> self.live@[t].key != k,
            decreases self.live@.len() - i,
        {
            if self.live[i].key == k {
                return Some(i);
            }
            i = i + 1;
        }
        None
    }

    /// Whether job identifier `id` has been retired.
    fn retired_contains(&self, id: u64) -> (r: bool)
        ensures
            r == self.is_retired(id),
    {
        let mut i: usize = 0;
        while i < self.retired.len()
            invariant
                i <= self.retired@.len(),
                forall|t: int| 0 <= t < i ==> self.retired@[t] != id,
            decreases self.retired@.len() - i,
        {
            if self.retired[i] == id {
                return true;
            }
            i = i + 1;
        }
        false
    }

    /// Whether key `k` is currently live.
    pub fn is_live(&self, k: MeshId) -> (r: bool)
        ensures
            r == self.has_live(k),
    {
        self.find_live(k).is_some()
    }

    /// Whether key `k` is currently pending.
    pub fn is_pending(&self, k: MeshId) -> (r: bool)
        ensures
            r == self.has_pending(k),
    {
        self.find_pending(k).is_some()
    }

    /// The handle under which key `k` is installed, if it is live.
    pub fn live_handle(&self, k: MeshId) -> (r: Option<u64>)
        ensures
            match r {
                Some(h) => exists|i: int|
                    0 <= i < self.live@.len() && self.live@[i] == (LiveEntry { key: k, handle: h }),
                None => !self.has_live(k),
            },
    {
        match self.find_live(k) {
            Some(i) => Some(self.live[i].handle),
            None => None,
        }
    }

    /// A state with the same queue, pending, live and retired contents as
    /// a well-formed one, and fresh inbox identifiers, is well-formed.
    proof fn lemma_wf_frame(pre: StreamingManager, post: StreamingManager)
        requires
            pre.wf(),
            post.queue() == pre.queue(),
            post.pending@ == pre.pending@,
            post.live@ == pre.live@,
            post.retired@ == pre.retired@,
            post.started == pre.started,
            post.center == pre.center,
            post.radius == pre.radius,
            post.next_id == pre.next_id,
            forall|i: int|
                0 <= i < post.inbox@.len() ==> (#[trigger] post.inbox@[i].id) < post.next_id,
        ensures
            post.wf(),
    {
        assert forall|i: int| 0 <= i < post.queue().len() implies (
        #[trigger] post.queue()[i].id) < post.next_id by {
            assert(pre.queue()[i].id < pre.next_id);
        }
        assert forall|i: int| 0 <= i < post.pending@.len() implies !post.is_retired(
            (#[trigger] post.pending@[i]).job,
        ) by {
            assert(post.pending@[i] == pre.pending@[i]);
            assert(!pre.is_retired(pre.pending@[i].job));
            if post.is_retired(post.pending@[i].job) {
                let t = choose|t: int|
                    0 <= t < post.retired@.len() && post.retired@[t] == post.pending@[i].job;
                assert(pre.retired@[t] == pre.pending@[i].job);
            }
        }
        assert forall|i: int|
            0 <= i < post.queue().len() implies post.is_retired(
            (#[trigger] post.queue()[i]).id,
        ) || exists|p: int|
            0 <= p < post.pending@.len() && (#[trigger] post.pending@[p]).job == post.queue()[i].id
                && post.pending@[p].key == post.queue()[i].key && post.pending@[p].origin_x
                == post.queue()[i].origin_x && post.pending@[p].origin_z
                == post.queue()[i].origin_z by {
            assert(post.queue()[i] == pre.queue()[i]);
            if pre.is_retired(pre.queue()[i].id) {
                let t = choose|t: int|
                    0 <= t < pre.retired@.len() && pre.retired@[t] == pre.queue()[i].id;
                assert(post.retired@[t] == post.queue()[i].id);
            } else {
                let p = choose|p: int|
                    0 <= p < pre.pending@.len() && (#[trigger] pre.pending@[p]).job
                        == pre.queue()[i].id && pre.pending@[p].key == pre.queue()[i].key
                        && pre.pending@[p].origin_x == pre.queue()[i].origin_x
                        && pre.pending@[p].origin_z == pre.queue()[i].origin_z;
                assert(0 <= p < post.pending@.len() && post.pending@[p].job == post.queue()[i].id
                    && post.pending@[p].key == post.queue()[i].key && post.pending@[p].origin_x
                    == post.queue()[i].origin_x && post.pending@[p].origin_z
                    == post.queue()[i].origin_z);
            }
        }
    }

    /// Whether some pending entry is waiting for exactly this completion.
    pub open spec fn completion_matches(self, c: Completion) -> bool {
        exists|p: int|
            0 <= p < self.pending@.len() && (#[trigger] self.pending@[p]).job == c.id
                && self.pending@[p].key == c.key
    }

    /// Whether a ready result carries the origin derived from its key.
    pub open spec fn ready_origin_ok(rr: ReadyResult) -> bool {
        (rr.origin_x as int, rr.origin_z as int) == Self::origin_of(rr.key)
    }

    /// Whether handle `h` belongs to some entry of `lv` that lies outside
    /// radius `r` of `cell`: only such handles are ever evicted.
    pub open spec fn evicted_from(lv: Seq<LiveEntry>, cell: MeshId, r: int, h: u64) -> bool {
        exists|j: int|
            0 <= j < lv.len() && !in_radius((#[trigger] lv[j]).key, cell, r) && lv[j].handle == h
    }

    /// Removing one pending entry while retiring its job identifier, and
    /// optionally installing its key as live, preserves the invariant.
    proof fn lemma_wf_retire(
        pre: StreamingManager,
        post: StreamingManager,
        p: int,
        added: Option<LiveEntry>,
    )
        requires
            pre.wf(),
            0 <= p < pre.pending@.len(),
            post.pending@ == pre.pending@.remove(p),
            post.retired@ == pre.retired@.push(pre.pending@[p].job),
            post.queue() == pre.queue(),
            match added {
                Some(e) => post.live@ == pre.live@.push(e) && e.key == pre.pending@[p].key,
                None => post.live@ == pre.live@,
            },
            post.started == pre.started,
            post.center == pre.center,
            post.radius == pre.radius,
            post.next_id == pre.next_id,
            forall|i: int|
                0 <= i < post.inbox@.len() ==> (#[trigger] post.inbox@[i].id) < post.next_id,
        ensures
            post.wf(),
    {
        assert(pre.wanted(pre.pending@[p].key));
        assert(pre.started);
        assert(forall|i: int|
            0 <= i < post.pending@.len() ==> #[trigger] post.pending@[i] == (if i < p {
                pre.pending@[i]
            } else {
                pre.pending@[i + 1]
            }));
        assert(forall|i: int|
            0 <= i < post.retired@.len() ==> #[trigger] post.retired@[i] == (if i
                < pre.retired@.len() {
                pre.retired@[i]
            } else {
                pre.pending@[p].job
            }));
        assert forall|i: int| 0 <= i < post.queue().len() implies (
        #[trigger] post.queue()[i].id) < post.next_id by {
            assert(pre.queue()[i].id < pre.next_id);
        }
        assert forall|i: int| 0 <= i < post.pending@.len() implies !post.is_retired(
            (#[trigger] post.pending@[i]).job,
        ) by {
            let q = if i < p {
                i
            } else {
                i + 1
            };
            assert(post.pending@[i] == pre.pending@[q]);
            assert(!pre.is_retired(pre.pending@[q].job));
            assert(pre.pending@[q].job != pre.pending@[p].job);
            if post.is_retired(post.pending@[i].job) {
                let t = choose|t: int|
                    0 <= t < post.retired@.len() && post.retired@[t] == post.pending@[i].job;
                assert(pre.retired@[t] == pre.pending@[q].job);
            }
        }
        assert forall|i: int|
            0 <= i < post.queue().len() implies post.is_retired(
            (#[trigger] post.queue()[i]).id,
        ) || exists|q: int|
            0 <= q < post.pending@.len() && (#[trigger] post.pending@[q]).job == post.queue()[i].id
                && post.pending@[q].key == post.queue()[i].key && post.pending@[q].origin_x
                == post.queue()[i].origin_x && post.pending@[q].origin_z
                == post.queue()[i].origin_z by {
            assert(post.queue()[i] == pre.queue()[i]);
            if pre.is_retired(pre.queue()[i].id) {
                let t = choose|t: int|
                    0 <= t < pre.retired@.len() && pre.retired@[t] == pre.queue()[i].id;
                assert(post.retired@[t] == post.queue()[i].id);
            } else {
                let q = choose|q: int|
                    0 <= q < pre.pending@.len() && (#[trigger] pre.pending@[q]).job
                        == pre.queue()[i].id && pre.pending@[q].key == pre.queue()[i].key
                        && pre.pending@[q].origin_x == pre.queue()[i].origin_x
                        && pre.pending@[q].origin_z == pre.queue()[i].origin_z;
                if q == p {
                    assert(post.retired@[post.retired@.len() - 1] == post.queue()[i].id);
                } else {
                    let q2 = if q < p {
                        q
                    } else {
                        q - 1
                    };
                    assert(post.pending@[q2] == pre.pending@[q]);
                }
            }
        }
    }

    /// An element other than the removed one is still contained after a
    /// removal.
    proof fn lemma_remove_still_contains<T>(s: Seq<T>, i: int, e: T)
        requires
            0 <= i < s.len(),
            s.contains(e),
            e != s[i],
        ensures
            s.remove(i).contains(e),
    {
        let t = choose|t: int| 0 <= t < s.len() && s[t] == e;
        if t < i {
            assert(s.remove(i)[t] == e);
        } else {
            assert(s.remove(i)[t - 1] == e);
        }
    }

    /// Replacing the live set by entries drawn from it through an
    /// injective index witness preserves the invariant.
    proof fn lemma_wf_replace_live(pre: StreamingManager, post: StreamingManager, src: Map<int, int>)
        requires
            pre.wf(),
            forall|a: int|
                #![trigger src[a]]
                0 <= a < post.live@.len() ==> 0 <= src[a] < pre.live@.len() && pre.live@[src[a]]
                    == post.live@[a],
            forall|a: int, b: int|
                #![trigger src[a], src[b]]
                0 <= a < b < post.live@.len() ==> src[a] != src[b],
            post.queue() == pre.queue(),
            post.pending@ == pre.pending@,
            post.retired@ == pre.retired@,
            post.inbox@ == pre.inbox@,
            post.started == pre.started,
            post.center == pre.center,
            post.radius == pre.radius,
            post.next_id == pre.next_id,
        ensures
            post.wf(),
    {
        if !post.started && post.live@.len() > 0 {
            assert(pre.live@[src[0]] == post.live@[0]);
            assert(false);
        }
        assert forall|a: int, b: int|
            0 <= a < b < post.live@.len() implies post.live@[a].key != post.live@[b].key by {
            assert(pre.live@[src[a]] == post.live@[a]);
            assert(pre.live@[src[b]] == post.live@[b]);
            if src[a] < src[b] {
                assert(pre.live@[src[a]].key != pre.live@[src[b]].key);
            } else {
                assert(pre.live@[src[b]].key != pre.live@[src[a]].key);
            }
        }
        assert forall|i: int, b: int|
            0 <= i < post.pending@.len() && 0 <= b < post.live@.len() implies post.pending@[i].key
            != post.live@[b].key by {
            assert(pre.live@[src[b]] == post.live@[b]);
            assert(pre.pending@[i].key != pre.live@[src[b]].key);
        }
        assert forall|b: int| 0 <= b < post.live@.len() implies post.wanted(
            #[trigger] post.live@[b].key,
        ) by {
            assert(pre.live@[src[b]] == post.live@[b]);
            assert(pre.wanted(pre.live@[src[b]].key));
        }
        assert forall|i: int| 0 <= i < post.queue().len() implies (
        #[trigger] post.queue()[i].id) < post.next_id by {
            assert(pre.queue()[i].id < pre.next_id);
        }
        assert forall|i: int| 0 <= i < post.inbox@.len() implies (
        #[trigger] post.inbox@[i].id) < post.next_id by {
            assert(pre.inbox@[i].id < pre.next_id);
        }
        assert forall|i: int| 0 <= i < post.pending@.len() implies !post.is_retired(
            (#[trigger] post.pending@[i]).job,
        ) by {
            assert(!pre.is_retired(pre.pending@[i].job));
        }
        assert forall|i: int|
            0 <= i < post.queue().len() implies post.is_retired(
            (#[trigger] post.queue()[i]).id,
        ) || exists|p: int|
            0 <= p < post.pending@.len() && (#[trigger] post.pending@[p]).job == post.queue()[i].id
                && post.pending@[p].key == post.queue()[i].key && post.pending@[p].origin_x
                == post.queue()[i].origin_x && post.pending@[p].origin_z
                == post.queue()[i].origin_z by {
            assert(post.queue()[i] == pre.queue()[i]);
            assert(pre.is_retired(pre.queue()[i].id) || exists|p: int|
                0 <= p < pre.pending@.len() && (#[trigger] pre.pending@[p]).job
                    == pre.queue()[i].id && pre.pending@[p].key == pre.queue()[i].key
                    && pre.pending@[p].origin_x == pre.queue()[i].origin_x
                    && pre.pending@[p].origin_z == pre.queue()[i].origin_z);
        }
    }

    /// Evicts every live entry outside radius `r` of `cell`, returning the
    /// handles the owning store should detach.
    fn evict_to(&mut self, cell: MeshId, r: i32) -> (ev: Vec<u64>)
        requires
            old(self).wf(),
            0 <= r,
        ensures
            final(self).wf(),
            final(self).queue() == old(self).queue(),
            final(self).pending@ == old(self).pending@,
            final(self).retired@ == old(self).retired@,
            final(self).inbox@ == old(self).inbox@,
            final(self).started == old(self).started,
            final(self).center == old(self).center,
            final(self).radius == old(self).radius,
            final(self).next_id == old(self).next_id,
            final(self).stalled == old(self).stalled,
            final(self).pool.workers() == old(self).pool.workers(),
            final(self).live@.len() + ev@.len() == old(self).live@.len(),
            forall|j: int|
                0 <= j < old(self).live@.len() ==> (in_radius(
                    (#[trigger] old(self).live@[j]).key,
                    cell,
                    r as int,
                ) ==> final(self).live@.contains(old(self).live@[j])) && (!in_radius(
                    old(self).live@[j].key,
                    cell,
                    r as int,
                ) ==> ev@.contains(old(self).live@[j].handle)),
            forall|a: int|
                0 <= a < final(self).live@.len() ==> old(self).live@.contains(
                    #[trigger] final(self).live@[a],
                ) && in_radius(final(self).live@[a].key, cell, r as int),
            forall|t: int|
                0 <= t < ev@.len() ==> #[trigger] Self::evicted_from(
                    old(self).live@,
                    cell,
                    r as int,
                    ev@[t],
                ),
    {
        let mut kept: Vec<LiveEntry> = Vec::new();
        let mut ev: Vec<u64> = Vec::new();
        let mut i: usize = 0;
        let ghost mut src: Map<int, int> = Map::empty();
        let ghost mut tok: Map<int, int> = Map::empty();
        let ghost mut toe: Map<int, int> = Map::empty();
        let ghost mut efrom: Map<int, int> = Map::empty();
        while i < self.live.len()
            invariant
                0 <= r,
                self.wf(),
                i <= self.live@.len(),
                kept@.len() + ev@.len() == i,
                forall|a: int|
                    #![trigger src[a]]
                    0 <= a < kept@.len() ==> 0 <= src[a] < i && self.live@[src[a]] == kept@[a],
                forall|a: int, b: int|
                    #![trigger src[a], src[b]]
                    0 <= a < b < kept@.len() ==> src[a] < src[b],
                forall|a: int|
                    0 <= a < kept@.len() ==> in_radius((#[trigger] kept@[a]).key, cell, r as int),
                forall|j: int|
                    #![trigger tok[j]]
                    0 <= j < i && in_radius(self.live@[j].key, cell, r as int) ==> 0 <= tok[j]
                        < kept@.len() && kept@[tok[j]] == self.live@[j],
                forall|j: int|
                    #![trigger toe[j]]
                    0 <= j < i && !in_radius(self.live@[j].key, cell, r as int) ==> 0 <= toe[j]
                        < ev@.len() && ev@[toe[j]] == self.live@[j].handle,
                forall|t: int|
                    #![trigger efrom[t]]
                    0 <= t < ev@.len() ==> 0 <= efrom[t] < i && !in_radius(
                        self.live@[efrom[t]].key,
                        cell,
                        r as int,
                    ) && self.live@[efrom[t]].handle == ev@[t],
            decreases self.live@.len() - i,
        {
            let ghost kept_old = kept@;
            let ghost src_old = src;
            let e = self.live[i];
            if crate::key::key_in_radius(e.key, cell, r) {
                kept.push(e);
                proof {
                    let l: int = kept@.len() - 1;
                    src = src.insert(l, i as int);
                    tok = tok.insert(i as int, l);
                    assert forall|a: int|
                        #![trigger src[a]]
                        0 <= a < kept@.len() implies 0 <= src[a] < i + 1 && self.live@[src[a]]
                            == kept@[a] by {
                        if a < l {
                            assert(kept@[a] == kept_old[a]);
                            assert(0 <= src_old[a] < i && self.live@[src_old[a]] == kept_old[a]);
                            assert(src[a] == src_old[a]);
                        } else {
                            assert(src[a] == i as int);
                            assert(kept@[a] == self.live@[i as int]);
                        }
                    }
                    assert forall|a: int, b: int|
                        0 <= a < b < kept@.len() implies src[a] < src[b] by {
                        assert(kept@[a] == kept_old[a]);
                        assert(0 <= src_old[a] < i && self.live@[src_old[a]] == kept_old[a]);
                        assert(src[a] == src_old[a]);
                        if b < l {
                            assert(kept@[b] == kept_old[b]);
                            assert(0 <= src_old[b] < i && self.live@[src_old[b]] == kept_old[b]);
                            assert(src[b] == src_old[b]);
                            assert(src_old[a] < src_old[b]);
                        } else {
                            assert(src[b] == i as int);
                            assert(src_old[a] < i as int);
                        }
                    }
                    assert forall|j: int|
                        #![trigger tok[j]]
                        0 <= j < i + 1 && in_radius(self.live@[j].key, cell, r as int) implies 0
                        <= tok[j] < kept@.len() && kept@[tok[j]] == self.live@[j] by {
                        if j < i {
                            assert(kept@[tok[j]] == kept_old[tok[j]]);
                        } else {
                            assert(tok[j] == l);
                        }
                    }
                }
            } else {
                let ghost ev_old = ev@;
                let ghost toe_old = toe;
                let ghost efrom_old = efrom;
                ev.push(e.handle);
                proof {
                    toe = toe.insert(i as int, ev@.len() - 1);
                    efrom = efrom.insert(ev@.len() - 1, i as int);
                    assert forall|t: int|
                        0 <= t < ev@.len() implies 0 <= #[trigger] efrom[t] < i + 1 && !in_radius(
                        self.live@[efrom[t]].key,
                        cell,
                        r as int,
                    ) && self.live@[efrom[t]].handle == ev@[t] by {
                        if t < ev@.len() - 1 {
                            assert(efrom[t] == efrom_old[t]);
                            assert(ev@[t] == ev_old[t]);
                            assert(0 <= efrom_old[t] < i && !in_radius(
                                self.live@[efrom_old[t]].key,
                                cell,
                                r as int,
                            ) && self.live@[efrom_old[t]].handle == ev_old[t]);
                        } else {
                            assert(efrom[t] == i as int);
                            assert(ev@[t] == self.live@[i as int].handle);
                        }
                    }
                    assert forall|j: int|
                        #![trigger toe[j]]
                        0 <= j < i + 1 && !in_radius(self.live@[j].key, cell, r as int) implies 0
                        <= toe[j] < ev@.len() && ev@[toe[j]] == self.live@[j].handle by {
                        if j < i {
                            assert(toe[j] == toe_old[j]);
                            assert(ev@[toe_old[j]] == ev_old[toe_old[j]]);
                        } else {
                            assert(toe[j] == ev@.len() - 1);
                        }
                    }
                }
            }
            i = i + 1;
        }
        let ghost pre = *self;
        self.live = kept;
        proof {
            Self::lemma_wf_replace_live(pre, *self, src);
            assert forall|j: int|
                0 <= j < pre.live@.len() implies (in_radius(
                (#[trigger] pre.live@[j]).key,
                cell,
                r as int,
            ) ==> self.live@.contains(pre.live@[j])) && (!in_radius(
                pre.live@[j].key,
                cell,
                r as int,
            ) ==> ev@.contains(pre.live@[j].handle)) by {
                if in_radius(pre.live@[j].key, cell, r as int) {
                    assert(self.live@[tok[j]] == pre.live@[j]);
                } else {
                    assert(ev@[toe[j]] == pre.live@[j].handle);
                }
            }
            assert forall|a: int| 0 <= a < self.live@.len() implies pre.live@.contains(
                #[trigger] self.live@[a],
            ) && in_radius(self.live@[a].key, cell, r as int) by {
                assert(pre.live@[src[a]] == self.live@[a]);
            }
            assert forall|t: int| 0 <= t < ev@.len() implies #[trigger] Self::evicted_from(
                old(self).live@,
                cell,
                r as int,
                ev@[t],
            ) by {
                assert(0 <= efrom[t] < old(self).live@.len() && !in_radius(
                    old(self).live@[efrom[t]].key,
                    cell,
                    r as int,
                ) && old(self).live@[efrom[t]].handle == ev@[t]);
            }
        }
        ev
    }

    /// Cancels every pending entry outside radius `r` of `cell`: the entry
    /// is dropped and its job identifier retired, so a worker that later
    /// picks the job up skips it.
    fn cancel_to(&mut self, cell: MeshId, r: i32)
        requires
            old(self).wf(),
            0 <= r,
        ensures
            final(self).wf(),
            final(self).queue() == old(self).queue(),
            final(self).live@ == old(self).live@,
            final(self).inbox@ == old(self).inbox@,
            final(self).started == old(self).started,
            final(self).center == old(self).center,
            final(self).radius == old(self).radius,
            final(self).next_id == old(self).next_id,
            final(self).stalled == old(self).stalled,
            final(self).pool.workers() == old(self).pool.workers(),
            forall|a: int|
                0 <= a < final(self).pending@.len() ==> old(self).pending@.contains(
                    #[trigger] final(self).pending@[a],
                ) && in_radius(final(self).pending@[a].key, cell, r as int),
            forall|j: int|
                0 <= j < old(self).pending@.len() ==> (in_radius(
                    (#[trigger] old(self).pending@[j]).key,
                    cell,
                    r as int,
                ) ==> final(self).pending@.contains(old(self).pending@[j])) && (!in_radius(
                    old(self).pending@[j].key,
                    cell,
                    r as int,
                ) ==> final(self).is_retired(old(self).pending@[j].job)),
            forall|id: u64| old(self).is_retired(id) ==> final(self).is_retired(id),
    {
        let mut i: usize = 0;
        while i < self.pending.len()
            invariant
                0 <= r,
                self.wf(),
                i <= self.pending@.len(),
                self.queue() == old(self).queue(),
                self.live@ == old(self).live@,
                self.inbox@ == old(self).inbox@,
                self.started == old(self).started,
                self.center == old(self).center,
                self.radius == old(self).radius,
                self.next_id == old(self).next_id,
                self.stalled == old(self).stalled,
                self.pool.workers() == old(self).pool.workers(),
                forall|t: int|
                    0 <= t < i ==> in_radius((#[trigger] self.pending@[t]).key, cell, r as int),
                forall|a: int|
                    0 <= a < self.pending@.len() ==> old(self).pending@.contains(
                        #[trigger] self.pending@[a],
                    ),
                forall|j: int|
                    0 <= j < old(self).pending@.len() ==> (in_radius(
                        (#[trigger] old(self).pending@[j]).key,
                        cell,
                        r as int,
                    ) ==> self.pending@.contains(old(self).pending@[j])) && (!in_radius(
                        old(self).pending@[j].key,
                        cell,
                        r as int,
                    ) ==> self.is_retired(old(self).pending@[j].job) || (exists|t: int|
                        i <= t < self.pending@.len() && #[trigger] self.pending@[t] == old(
                            self,
                        ).pending@[j])),
                forall|id: u64| old(self).is_retired(id) ==> self.is_retired(id),
            decreases self.pending@.len() - i,
        {
            let e = self.pending[i];
            if crate::key::key_in_radius(e.key, cell, r) {
                i = i + 1;
            } else {
                let ghost pre = *self;
                let ghost ii = i as int;
                self.pending.remove(i);
                self.retired.push(e.job);
                proof {
                    assert forall|t: int| 0 <= t < self.inbox@.len() implies (
                    #[trigger] self.inbox@[t].id) < self.next_id by {
                        assert(pre.inbox@[t].id < pre.next_id);
                    }
                    Self::lemma_wf_retire(pre, *self, ii, None);
                    assert forall|id: u64| pre.is_retired(id) implies self.is_retired(id) by {
                        let t = choose|t: int|
                            0 <= t < pre.retired@.len() && pre.retired@[t] == id;
                        assert(self.retired@[t] == id);
                    }
                    assert(self.is_retired(e.job)) by {
                        assert(self.retired@[self.retired@.len() - 1] == e.job);
                    }
                    assert forall|a: int|
                        0 <= a < self.pending@.len() implies old(self).pending@.contains(
                        #[trigger] self.pending@[a],
                    ) by {
                        if a < ii {
                            assert(self.pending@[a] == pre.pending@[a]);
                            assert(old(self).pending@.contains(pre.pending@[a]));
                        } else {
                            assert(self.pending@[a] == pre.pending@[a + 1]);
                            assert(old(self).pending@.contains(pre.pending@[a + 1]));
                        }
                    }
                    assert forall|j: int|
                        0 <= j < old(self).pending@.len() && in_radius(
                            (#[trigger] old(self).pending@[j]).key,
                            cell,
                            r as int,
                        ) implies self.pending@.contains(old(self).pending@[j]) by {
                        assert(pre.pending@.contains(old(self).pending@[j]));
                        assert(old(self).pending@[j] != pre.pending@[ii]);
                        Self::lemma_remove_still_contains(
                            pre.pending@,
                            ii,
                            old(self).pending@[j],
                        );
                    }
                    assert forall|j: int|
                        0 <= j < old(self).pending@.len() && !in_radius(
                            (#[trigger] old(self).pending@[j]).key,
                            cell,
                            r as int,
                        ) && !self.is_retired(old(self).pending@[j].job) implies (exists|t: int|
                        ii <= t < self.pending@.len() && #[trigger] self.pending@[t] == old(
                            self,
                        ).pending@[j]) by {
                        let t = choose|t: int|
                            ii <= t < pre.pending@.len() && #[trigger] pre.pending@[t] == old(
                                self,
                            ).pending@[j];
                        assert(t != ii);
                        assert(self.pending@[t - 1] == old(self).pending@[j]);
                    }
                }
            }
        }
        proof {
            assert forall|j: int|
                0 <= j < old(self).pending@.len() && !in_radius(
                    (#[trigger] old(self).pending@[j]).key,
                    cell,
                    r as int,
                ) implies final(self).is_retired(old(self).pending@[j].job) by {
                if exists|t: int|
                    i <= t < self.pending@.len() && #[trigger] self.pending@[t] == old(
                        self,
                    ).pending@[j] {
                    let t = choose|t: int|
                        i <= t < self.pending@.len() && #[trigger] self.pending@[t] == old(
                            self,
                        ).pending@[j];
                    assert(in_radius(self.pending@[t].key, cell, r as int));
                }
            }
        }
    }

    /// Collects every key within radius `r` of `cell` that is neither
    /// pending nor live, by scanning the bounding window around `cell` and
    /// keeping the keys that pass the distance test.  The order is
    /// unspecified; `update` sorts before dispatching.
    fn collect_missing(&self, cell: MeshId, r: i32) -> (v: Vec<MeshId>)
        requires
            self.wf(),
            center_in_bounds(cell),
            0 <= r <= MAX_RADIUS,
        ensures
            forall|t: int|
                0 <= t < v@.len() ==> in_radius(#[trigger] v@[t], cell, r as int)
                    && !self.has_pending(v@[t]) && !self.has_live(v@[t]),
            forall|k: MeshId|
                #![trigger v@.contains(k)]
                in_radius(k, cell, r as int) && !self.has_pending(k) && !self.has_live(k)
                    ==> v@.contains(k),
            forall|t: int, u: int| 0 <= t < u < v@.len() ==> v@[t] != v@[u],
            v@.len() <= (2 * (r as int) + 1) * (2 * (r as int) + 1),
    {
        let mut v: Vec<MeshId> = Vec::new();
        let mut dx: i32 = -r;
        proof {
            assert forall|k: MeshId|
                #![trigger v@.contains(k)]
                in_radius(k, cell, r as int) && !self.has_pending(k) && !self.has_live(k) && k.0
                    - cell.0 < dx implies v@.contains(k) by {
                crate::key::lemma_in_radius_box(k, cell, r as int);
            }
        }
        while dx <= r
            invariant
                self.wf(),
                center_in_bounds(cell),
                0 <= r <= MAX_RADIUS,
                -r <= dx <= r + 1,
                forall|t: int|
                    0 <= t < v@.len() ==> in_radius(#[trigger] v@[t], cell, r as int)
                        && !self.has_pending(v@[t]) && !self.has_live(v@[t]),
                forall|k: MeshId|
                    #![trigger v@.contains(k)]
                    in_radius(k, cell, r as int) && !self.has_pending(k) && !self.has_live(k)
                        && k.0 - cell.0 < dx ==> v@.contains(k),
                forall|t: int, u: int| 0 <= t < u < v@.len() ==> v@[t] != v@[u],
                forall|t: int| 0 <= t < v@.len() ==> (#[trigger] v@[t]).0 - cell.0 < dx,
                v@.len() <= (dx + r) * (2 * (r as int) + 1),
            decreases r + 1 - dx,
        {
            let mut dz: i32 = -r;
            proof {
                assert forall|k: MeshId|
                    #![trigger v@.contains(k)]
                    in_radius(k, cell, r as int) && !self.has_pending(k) && !self.has_live(k) && (
                    k.0 - cell.0 < dx || (k.0 - cell.0 == dx && k.1 - cell.1 < dz)) implies
                    v@.contains(k) by {
                    crate::key::lemma_in_radius_box(k, cell, r as int);
                }
            }
            while dz <= r
                invariant
                    self.wf(),
                    center_in_bounds(cell),
                    0 <= r <= MAX_RADIUS,
                    -r <= dx <= r,
                    -r <= dz <= r + 1,
                    forall|t: int|
                        0 <= t < v@.len() ==> in_radius(#[trigger] v@[t], cell, r as int)
                            && !self.has_pending(v@[t]) && !self.has_live(v@[t]),
                    forall|k: MeshId|
                        #![trigger v@.contains(k)]
                        in_radius(k, cell, r as int) && !self.has_pending(k) && !self.has_live(k)
                            && (k.0 - cell.0 < dx || (k.0 - cell.0 == dx && k.1 - cell.1 < dz))
                            ==> v@.contains(k),
                    forall|t: int, u: int| 0 <= t < u < v@.len() ==> v@[t] != v@[u],
                    forall|t: int|
                        0 <= t < v@.len() ==> (#[trigger] v@[t]).0 - cell.0 < dx || ((
                        #[trigger] v@[t]).0 - cell.0 == dx && v@[t].1 - cell.1 < dz),
                    v@.len() <= (dx + r) * (2 * (r as int) + 1) + (dz + r),
                decreases r + 1 - dz,
            {
                let k = MeshId(cell.0 + dx, cell.1 + dz);
                let ghost v_old = v@;
                if crate::key::key_in_radius(k, cell, r) && self.find_pending(k).is_none()
                    && self.find_live(k).is_none() {
                    v.push(k);
                    proof {
                        assert(v@[v@.len() - 1] == k);
                        assert forall|t: int|
                            0 <= t < v@.len() - 1 implies #[trigger] v@[t] == v_old[t] by {}
                        assert forall|t: int, u: int|
                            0 <= t < u < v@.len() implies v@[t] != v@[u] by {
                            if u == v@.len() - 1 {
                                assert(v@[t] == v_old[t]);
                                assert(v_old[t].0 - cell.0 < dx || (v_old[t].0 - cell.0 == dx
                                    && v_old[t].1 - cell.1 < dz));
                            } else {
                                assert(v@[t] == v_old[t] && v@[u] == v_old[u]);
                            }
                        }
                        assert forall|k2: MeshId|
                            #![trigger v@.contains(k2)]
                            in_radius(k2, cell, r as int) && !self.has_pending(k2)
                                && !self.has_live(k2) && (k2.0 - cell.0 < dx || (k2.0 - cell.0
                                == dx && k2.1 - cell.1 < dz + 1)) implies v@.contains(k2) by {
                            if k2.0 - cell.0 == dx && k2.1 - cell.1 == dz {
                                assert(k2 == k);
                                assert(v@[v@.len() - 1] == k2);
                            } else {
                                assert(v_old.contains(k2));
                                let t = choose|t: int| 0 <= t < v_old.len() && v_old[t] == k2;
                                assert(v@[t] == k2);
                            }
                        }
                    }
                } else {
                    proof {
                        assert forall|k2: MeshId|
                            #![trigger v@.contains(k2)]
                            in_radius(k2, cell, r as int) && !self.has_pending(k2)
                                && !self.has_live(k2) && (k2.0 - cell.0 < dx || (k2.0 - cell.0
                                == dx && k2.1 - cell.1 < dz + 1)) implies v@.contains(k2) by {
                            if k2.0 - cell.0 == dx && k2.1 - cell.1 == dz {
                                assert(k2 == k);
                                assert(false);
                            } else {
                                assert(v@.contains(k2));
                            }
                        }
                    }
                }
                dz = dz + 1;
            }
            proof {
                assert forall|k2: MeshId|
                    #![trigger v@.contains(k2)]
                    in_radius(k2, cell, r as int) && !self.has_pending(k2) && !self.has_live(k2)
                        && k2.0 - cell.0 < dx + 1 implies v@.contains(k2) by {
                    crate::key::lemma_in_radius_box(k2, cell, r as int);
                }
                assert forall|t: int| 0 <= t < v@.len() implies (#[trigger] v@[t]).0 - cell.0 < dx
                    + 1 by {}
                assert(v@.len() <= (dx + 1 + r) * (2 * (r as int) + 1)) by (nonlinear_arith)
                    requires
                        v@.len() <= (dx + r) * (2 * (r as int) + 1) + (r + 1 + r),
                        0 <= r,
                        -r <= dx <= r,
                ;
            }
            dx = dx + 1;
        }
        proof {
            assert forall|k2: MeshId|
                #![trigger v@.contains(k2)]
                in_radius(k2, cell, r as int) && !self.has_pending(k2) && !self.has_live(
                    k2,
                ) implies v@.contains(k2) by {
                crate::key::lemma_in_radius_box(k2, cell, r as int);
            }
            assert((r + 1 + r as int) * (2 * (r as int) + 1) == (2 * (r as int) + 1) * (2 * (
            r as int) + 1)) by (nonlinear_arith);
        }
        v
    }

    /// Sorts keys by ascending squared distance to `cell`, the order in
    /// which missing keys are dispatched: nearest first.
    fn sort_by_distance(keys: Vec<MeshId>, cell: MeshId) -> (out: Vec<MeshId>)
        ensures
            out@.to_multiset() == keys@.to_multiset(),
            out@.len() == keys@.len(),
            forall|t: int, u: int|
                0 <= t <= u < out@.len() ==> dist2(#[trigger] out@[t], cell) <= dist2(
                    #[trigger] out@[u],
                    cell,
                ),
    {
        broadcast use vstd::seq_lib::group_to_multiset_ensures;
        broadcast use vstd::multiset::group_multiset_axioms;

        let mut rest = keys;
        let mut out: Vec<MeshId> = Vec::new();
        while rest.len() > 0
            invariant
                out@.to_multiset().add(rest@.to_multiset()) == keys@.to_multiset(),
                out@.len() + rest@.len() == keys@.len(),
                forall|t: int, u: int|
                    0 <= t <= u < out@.len() ==> dist2(#[trigger] out@[t], cell) <= dist2(
                        #[trigger] out@[u],
                        cell,
                    ),
                forall|t: int, u: int|
                    0 <= t < out@.len() && 0 <= u < rest@.len() ==> dist2(
                        #[trigger] out@[t],
                        cell,
                    ) <= dist2(#[trigger] rest@[u], cell),
            decreases rest@.len(),
        {
            let mut m: usize = 0;
            let mut j: usize = 1;
            while j < rest.len()
                invariant
                    0 < rest@.len(),
                    m < j <= rest@.len(),
                    forall|t: int|
                        0 <= t < j ==> dist2(rest@[m as int], cell) <= dist2(
                            #[trigger] rest@[t],
                            cell,
                        ),
                decreases rest@.len() - j,
            {
                if rest[j].squared_distance(cell) < rest[m].squared_distance(cell) {
                    m = j;
                }
                j = j + 1;
            }
            let ghost rest_old = rest@;
            let ghost out_old = out@;
            let k = rest.remove(m);
            out.push(k);
            proof {
                rest_old.to_multiset_ensures();
                out_old.to_multiset_ensures();
                assert(rest_old.contains(k)) by {
                    assert(rest_old[m as int] == k);
                }
                assert(rest@ == rest_old.remove(m as int));
                assert(rest_old.remove(m as int).to_multiset() =~= rest_old.to_multiset().remove(
                    rest_old[m as int],
                ));
                assert(out@ == out_old.push(k));
                assert(out_old.push(k).to_multiset() =~= out_old.to_multiset().insert(k));
                assert(rest_old.to_multiset().count(k) > 0);
                assert(out@.to_multiset().add(rest@.to_multiset()) =~= keys@.to_multiset());
                assert forall|t: int, u: int|
                    0 <= t <= u < out@.len() implies dist2(#[trigger] out@[t], cell) <= dist2(
                    #[trigger] out@[u],
                    cell,
                ) by {
                    if u < out@.len() - 1 {
                        assert(out@[t] == out_old[t] && out@[u] == out_old[u]);
                    } else if t < out@.len() - 1 {
                        assert(out@[t] == out_old[t] && out@[u] == k);
                        assert(dist2(out_old[t], cell) <= dist2(rest_old[m as int], cell));
                    }
                }
                assert forall|t: int, u: int|
                    0 <= t < out@.len() && 0 <= u < rest@.len() implies dist2(
                    #[trigger] out@[t],
                    cell,
                ) <= dist2(#[trigger] rest@[u], cell) by {
                    let uo = if u < m as int {
                        u
                    } else {
                        u + 1
                    };
                    assert(rest@[u] == rest_old[uo]);
                    assert(dist2(rest_old[m as int], cell) <= dist2(rest_old[uo], cell));
                    if t < out@.len() - 1 {
                        assert(out@[t] == out_old[t]);
                        assert(dist2(out_old[t], cell) <= dist2(rest_old[uo], cell));
                    } else {
                        assert(out@[t] == k);
                    }
                }
            }
        }
        out
    }

    /// The job that dispatching key `k` under identifier `id` enqueues.
    pub open spec fn job_for(k: MeshId, id: u64) -> Job {
        Job {
            id,
            key: k,
            origin_x: ((k.0 as int) * (CELL_SIZE as int)) as i64,
            origin_z: ((k.1 as int) * (CELL_SIZE as int)) as i64,
        }
    }

    /// The pending entry that dispatching key `k` under identifier `id`
    /// records.
    pub open spec fn entry_for(k: MeshId, id: u64) -> PendingEntry {
        PendingEntry {
            key: k,
            job: id,
            origin_x: ((k.0 as int) * (CELL_SIZE as int)) as i64,
            origin_z: ((k.1 as int) * (CELL_SIZE as int)) as i64,
        }
    }

    /// Dispatching one absent wanted key under a fresh identifier
    /// preserves the invariant.
    proof fn lemma_wf_dispatch_one(pre: StreamingManager, post: StreamingManager, k: MeshId)
        requires
            pre.wf(),
            pre.started,
            in_radius(k, pre.center, pre.radius as int),
            !pre.has_pending(k),
            !pre.has_live(k),
            pre.next_id < u64::MAX,
            post.queue() == pre.queue().push(Self::job_for(k, pre.next_id)),
            post.pending@ == pre.pending@.push(Self::entry_for(k, pre.next_id)),
            post.next_id == pre.next_id + 1,
            post.live@ == pre.live@,
            post.retired@ == pre.retired@,
            post.inbox@ == pre.inbox@,
            post.started == pre.started,
            post.center == pre.center,
            post.radius == pre.radius,
        ensures
            post.wf(),
    {
        let pl: int = pre.pending@.len() as int;
        let ql: int = pre.queue().len() as int;
        assert(forall|i: int|
            0 <= i < pl ==> #[trigger] post.pending@[i] == pre.pending@[i]);
        assert(post.pending@[pl] == Self::entry_for(k, pre.next_id));
        assert(forall|i: int| 0 <= i < ql ==> #[trigger] post.queue()[i] == pre.queue()[i]);
        assert(post.queue()[ql] == Self::job_for(k, pre.next_id));
        assert forall|i: int, j: int|
            0 <= i < j < post.pending@.len() implies post.pending@[i].key != post.pending@[j].key
            && post.pending@[i].job != post.pending@[j].job by {
            if j < pl {
                assert(pre.pending@[i].key != pre.pending@[j].key && pre.pending@[i].job
                    != pre.pending@[j].job);
            } else {
                assert(post.pending@[j].key == k && post.pending@[j].job == pre.next_id);
                assert(pre.pending@[i].key != k);
                assert(pre.pending@[i].job < pre.next_id);
            }
        }
        assert forall|i: int, j: int|
            0 <= i < post.pending@.len() && 0 <= j < post.live@.len() implies post.pending@[i].key
            != post.live@[j].key by {
            if i < pl {
                assert(pre.pending@[i].key != pre.live@[j].key);
            } else {
                assert(post.pending@[i].key == k);
                assert(pre.live@[j].key != k);
            }
        }
        assert forall|i: int| 0 <= i < post.pending@.len() implies post.wanted(
            #[trigger] post.pending@[i].key,
        ) by {
            if i < pl {
                assert(pre.wanted(pre.pending@[i].key));
            }
        }
        assert forall|i: int| 0 <= i < post.live@.len() implies post.wanted(
            #[trigger] post.live@[i].key,
        ) by {
            assert(pre.wanted(pre.live@[i].key));
        }
        assert forall|i: int| 0 <= i < post.pending@.len() implies Self::entry_origin_ok(
            #[trigger] post.pending@[i],
        ) by {
            if i < pl {
                assert(Self::entry_origin_ok(pre.pending@[i]));
            }
        }
        assert forall|i: int| 0 <= i < post.pending@.len() implies (
        #[trigger] post.pending@[i].job) < post.next_id by {
            if i < pl {
                assert(pre.pending@[i].job < pre.next_id);
            }
        }
        assert forall|i: int| 0 <= i < post.queue().len() implies (
        #[trigger] post.queue()[i].id) < post.next_id by {
            if i < ql {
                assert(pre.queue()[i].id < pre.next_id);
            }
        }
        assert forall|i: int| 0 <= i < post.retired@.len() implies (#[trigger] post.retired@[i])
            < post.next_id by {
            assert(pre.retired@[i] < pre.next_id);
        }
        assert forall|i: int| 0 <= i < post.inbox@.len() implies (#[trigger] post.inbox@[i].id)
            < post.next_id by {
            assert(pre.inbox@[i].id < pre.next_id);
        }
        assert forall|i: int| 0 <= i < post.pending@.len() implies !post.is_retired(
            (#[trigger] post.pending@[i]).job,
        ) by {
            if post.is_retired(post.pending@[i].job) {
                let t = choose|t: int|
                    0 <= t < post.retired@.len() && post.retired@[t] == post.pending@[i].job;
                assert(pre.retired@[t] < pre.next_id);
                if i < pl {
                    assert(!pre.is_retired(pre.pending@[i].job));
                    assert(pre.retired@[t] == pre.pending@[i].job);
                } else {
                    assert(post.pending@[i].job == pre.next_id);
                }
            }
        }
        assert forall|i: int, j: int|
            0 <= i < j < post.queue().len() implies post.queue()[i].id != post.queue()[j].id by {
            if j < ql {
                assert(pre.queue()[i].id != pre.queue()[j].id);
            } else {
                assert(post.queue()[j].id == pre.next_id);
                assert(pre.queue()[i].id < pre.next_id);
            }
        }
        assert forall|i: int|
            0 <= i < post.queue().len() implies post.is_retired(
            (#[trigger] post.queue()[i]).id,
        ) || exists|p: int|
            0 <= p < post.pending@.len() && (#[trigger] post.pending@[p]).job == post.queue()[i].id
                && post.pending@[p].key == post.queue()[i].key && post.pending@[p].origin_x
                == post.queue()[i].origin_x && post.pending@[p].origin_z
                == post.queue()[i].origin_z by {
            if i < ql {
                assert(post.queue()[i] == pre.queue()[i]);
                if pre.is_retired(pre.queue()[i].id) {
                    let t = choose|t: int|
                        0 <= t < pre.retired@.len() && pre.retired@[t] == pre.queue()[i].id;
                    assert(post.retired@[t] == post.queue()[i].id);
                } else {
                    let p = choose|p: int|
                        0 <= p < pre.pending@.len() && (#[trigger] pre.pending@[p]).job
                            == pre.queue()[i].id && pre.pending@[p].key == pre.queue()[i].key
                            && pre.pending@[p].origin_x == pre.queue()[i].origin_x
                            && pre.pending@[p].origin_z == pre.queue()[i].origin_z;
                    assert(post.pending@[p] == pre.pending@[p]);
                }
            } else {
                assert(post.pending@[pl].job == post.queue()[i].id && post.pending@[pl].key
                    == post.queue()[i].key && post.pending@[pl].origin_x
                    == post.queue()[i].origin_x && post.pending@[pl].origin_z
                    == post.queue()[i].origin_z);
            }
        }
    }

    /// Dispatches each key in order under consecutive fresh identifiers:
    /// a job per key goes to the pool and a pending entry per key is
    /// recorded.
    fn dispatch_list(&mut self, keys: &Vec<MeshId>)
        requires
            old(self).wf(),
            old(self).started,
            old(self).pool.workers() > 0,
            old(self).next_id + keys@.len() <= u64::MAX,
            forall|t: int|
                0 <= t < keys@.len() ==> in_radius(
                    #[trigger] keys@[t],
                    old(self).center,
                    old(self).radius as int,
                ) && !old(self).has_pending(keys@[t]) && !old(self).has_live(keys@[t]),
            forall|t: int, u: int| 0 <= t < u < keys@.len() ==> keys@[t] != keys@[u],
        ensures
            final(self).wf(),
            final(self).live@ == old(self).live@,
            final(self).retired@ == old(self).retired@,
            final(self).inbox@ == old(self).inbox@,
            final(self).started == old(self).started,
            final(self).center == old(self).center,
            final(self).radius == old(self).radius,
            final(self).stalled == old(self).stalled,
            final(self).pool.workers() == old(self).pool.workers(),
            final(self).next_id == old(self).next_id + keys@.len(),
            final(self).queue() == old(self).queue() + Seq::new(
                keys@.len(),
                |t: int| Self::job_for(keys@[t], (old(self).next_id + t) as u64),
            ),
            final(self).pending@ == old(self).pending@ + Seq::new(
                keys@.len(),
                |t: int| Self::entry_for(keys@[t], (old(self).next_id + t) as u64),
            ),
    {
        let mut t: usize = 0;
        while t < keys.len()
            invariant
                self.wf(),
                t <= keys@.len(),
                self.started == old(self).started,
                old(self).started,
                self.center == old(self).center,
                self.radius == old(self).radius,
                self.live@ == old(self).live@,
                self.retired@ == old(self).retired@,
                self.inbox@ == old(self).inbox@,
                self.stalled == old(self).stalled,
                self.pool.workers() == old(self).pool.workers(),
                old(self).pool.workers() > 0,
                old(self).next_id + keys@.len() <= u64::MAX,
                self.next_id == old(self).next_id + t,
                self.queue() =~= old(self).queue() + Seq::new(
                    t as nat,
                    |u: int| Self::job_for(keys@[u], (old(self).next_id + u) as u64),
                ),
                self.pending@ =~= old(self).pending@ + Seq::new(
                    t as nat,
                    |u: int| Self::entry_for(keys@[u], (old(self).next_id + u) as u64),
                ),
                forall|u: int|
                    0 <= u < keys@.len() ==> in_radius(
                        #[trigger] keys@[u],
                        old(self).center,
                        old(self).radius as int,
                    ) && !old(self).has_pending(keys@[u]) && !old(self).has_live(keys@[u]),
                forall|u: int, w: int| 0 <= u < w < keys@.len() ==> keys@[u] != keys@[w],
                forall|u: int|
                    t <= u < keys@.len() ==> !self.has_pending(#[trigger] keys@[u])
                        && !self.has_live(keys@[u]),
            decreases keys@.len() - t,
        {
            let k = keys[t];
            let id = self.next_id;
            let origin_x: i64 = (k.0 as i64) * (CELL_SIZE as i64);
            let origin_z: i64 = (k.1 as i64) * (CELL_SIZE as i64);
            let ghost pre = *self;
            match self.pool.dispatch(Job { id, key: k, origin_x, origin_z }) {
                Ok(()) => {},
                Err(_) => {},
            }
            self.pending.push(PendingEntry { key: k, job: id, origin_x, origin_z });
            self.next_id = id + 1;
            proof {
                assert((Job { id, key: k, origin_x, origin_z }) == Self::job_for(k, pre.next_id));
                assert((PendingEntry { key: k, job: id, origin_x, origin_z }) == Self::entry_for(
                    k,
                    pre.next_id,
                ));
                Self::lemma_wf_dispatch_one(pre, *self, k);
                assert(self.queue() =~= old(self).queue() + Seq::new(
                    (t + 1) as nat,
                    |u: int| Self::job_for(keys@[u], (old(self).next_id + u) as u64),
                ));
                assert(self.pending@ =~= old(self).pending@ + Seq::new(
                    (t + 1) as nat,
                    |u: int| Self::entry_for(keys@[u], (old(self).next_id + u) as u64),
                ));
                assert forall|u: int|
                    t + 1 <= u < keys@.len() implies !self.has_pending(#[trigger] keys@[u])
                    && !self.has_live(keys@[u]) by {
                    if self.has_pending(keys@[u]) {
                        let p = choose|p: int|
                            0 <= p < self.pending@.len() && self.pending@[p].key == keys@[u];
                        if p < pre.pending@.len() {
                            assert(pre.pending@[p].key == keys@[u]);
                            assert(pre.has_pending(keys@[u]));
                        } else {
                            assert(self.pending@[p].key == k);
                            assert(keys@[t as int] != keys@[u]);
                        }
                    }
                    if self.has_live(keys@[u]) {
                        let p = choose|p: int|
                            0 <= p < self.live@.len() && self.live@[p].key == keys@[u];
                        assert(old(self).live@[p].key == keys@[u]);
                    }
                }
            }
            t = t + 1;
        }
        proof {
            assert(self.queue() == old(self).queue() + Seq::new(
                keys@.len(),
                |u: int| Self::job_for(keys@[u], (old(self).next_id + u) as u64),
            ));
            assert(self.pending@ == old(self).pending@ + Seq::new(
                keys@.len(),
                |u: int| Self::entry_for(keys@[u], (old(self).next_id + u) as u64),
            ));
        }
    }

    /// Dispatches generation for one absent wanted key: builds a job
    /// under a fresh identifier, enqueues it, and records the key as
    /// pending.  Fails exactly when every worker has terminated, leaving
    /// the state unchanged.
    pub fn dispatch(&mut self, key: MeshId) -> (r: Result<(), crate::pool::PoolError>)
        requires
            old(self).wf(),
            old(self).started,
            in_radius(key, old(self).center, old(self).radius as int),
            !old(self).has_pending(key),
            !old(self).has_live(key),
            old(self).next_id < u64::MAX,
        ensures
            final(self).wf(),
            final(self).live@ == old(self).live@,
            final(self).retired@ == old(self).retired@,
            final(self).inbox@ == old(self).inbox@,
            final(self).started == old(self).started,
            final(self).center == old(self).center,
            final(self).radius == old(self).radius,
            final(self).stalled == old(self).stalled,
            final(self).pool.workers() == old(self).pool.workers(),
            old(self).pool.workers() > 0 ==> r is Ok && final(self).queue() == old(
                self,
            ).queue().push(Self::job_for(key, old(self).next_id)) && final(self).pending@ == old(
                self,
            ).pending@.push(Self::entry_for(key, old(self).next_id)) && final(self).next_id == old(
                self,
            ).next_id + 1,
            old(self).pool.workers() == 0 ==> r is Err && final(self).queue() == old(self).queue()
                && final(self).pending@ == old(self).pending@ && final(self).next_id == old(
                self,
            ).next_id,
    {
        if self.pool.workers_alive() == 0 {
            return Err(crate::pool::PoolError::PoolClosed);
        }
        let id = self.next_id;
        proof {
            assert(CELL_SIZE as i64 == 32i64);
        }
        let origin_x: i64 = (key.0 as i64) * (CELL_SIZE as i64);
        let origin_z: i64 = (key.1 as i64) * (CELL_SIZE as i64);
        let ghost pre = *self;
        match self.pool.dispatch(Job { id, key, origin_x, origin_z }) {
            Ok(()) => {},
            Err(_) => {},
        }
        self.pending.push(PendingEntry { key, job: id, origin_x, origin_z });
        self.next_id = id + 1;
        proof {
            assert((Job { id, key, origin_x, origin_z }) == Self::job_for(key, pre.next_id));
            assert((PendingEntry { key, job: id, origin_x, origin_z }) == Self::entry_for(
                key,
                pre.next_id,
            ));
            Self::lemma_wf_dispatch_one(pre, *self, key);
        }
        Ok(())
    }

    /// Moving the recorded center to a cell that every tracked key lies
    /// within radius of preserves the invariant.
    proof fn lemma_wf_recenter(pre: StreamingManager, post: StreamingManager, cell: MeshId)
        requires
            pre.wf(),
            center_in_bounds(cell),
            post.started,
            post.center == cell,
            forall|i: int|
                0 <= i < pre.pending@.len() ==> in_radius(
                    (#[trigger] pre.pending@[i]).key,
                    cell,
                    pre.radius as int,
                ),
            forall|i: int|
                0 <= i < pre.live@.len() ==> in_radius(
                    (#[trigger] pre.live@[i]).key,
                    cell,
                    pre.radius as int,
                ),
            post.queue() == pre.queue(),
            post.pending@ == pre.pending@,
            post.live@ == pre.live@,
            post.retired@ == pre.retired@,
            post.inbox@ == pre.inbox@,
            post.radius == pre.radius,
            post.next_id == pre.next_id,
        ensures
            post.wf(),
    {
        assert forall|i: int| 0 <= i < post.pending@.len() implies post.wanted(
            #[trigger] post.pending@[i].key,
        ) by {
            assert(in_radius(pre.pending@[i].key, cell, pre.radius as int));
        }
        assert forall|i: int| 0 <= i < post.live@.len() implies post.wanted(
            #[trigger] post.live@[i].key,
        ) by {
            assert(in_radius(pre.live@[i].key, cell, pre.radius as int));
        }
        assert forall|i: int| 0 <= i < post.queue().len() implies (
        #[trigger] post.queue()[i].id) < post.next_id by {
            assert(pre.queue()[i].id < pre.next_id);
        }
        assert forall|i: int| 0 <= i < post.inbox@.len() implies (
        #[trigger] post.inbox@[i].id) < post.next_id by {
            assert(pre.inbox@[i].id < pre.next_id);
        }
        assert forall|i: int| 0 <= i < post.pending@.len() implies !post.is_retired(
            (#[trigger] post.pending@[i]).job,
        ) by {
            assert(!pre.is_retired(pre.pending@[i].job));
        }
        assert forall|i: int|
            0 <= i < post.queue().len() implies post.is_retired(
            (#[trigger] post.queue()[i]).id,
        ) || exists|p: int|
            0 <= p < post.pending@.len() && (#[trigger] post.pending@[p]).job == post.queue()[i].id
                && post.pending@[p].key == post.queue()[i].key && post.pending@[p].origin_x
                == post.queue()[i].origin_x && post.pending@[p].origin_z
                == post.queue()[i].origin_z by {
            assert(post.queue()[i] == pre.queue()[i]);
            assert(pre.is_retired(pre.queue()[i].id) || exists|p: int|
                0 <= p < pre.pending@.len() && (#[trigger] pre.pending@[p]).job
                    == pre.queue()[i].id && pre.pending@[p].key == pre.queue()[i].key
                    && pre.pending@[p].origin_x == pre.queue()[i].origin_x
                    && pre.pending@[p].origin_z == pre.queue()[i].origin_z);
        }
    }

    /// How recomputing the wanted set around `cell` relates the state
    /// before to the state after: live and pending keys outside the
    /// radius are evicted and cancelled, surviving entries are kept
    /// unchanged, and every absent wanted key is dispatched nearest-first
    /// under fresh consecutive identifiers unless the pool can accept no
    /// work.
    pub open spec fn load_rel(
        pre: StreamingManager,
        post: StreamingManager,
        cell: MeshId,
        evicted: Seq<u64>,
        stalled: bool,
    ) -> bool {
        let r = pre.radius as int;
        let n0 = pre.queue().len() as int;
        let suffix = post.queue().skip(n0);
        &&& post.stalled == stalled
        &&& post.inbox@ == pre.inbox@
        &&& post.started
        &&& post.center == cell
        &&& post.radius == pre.radius
        &&& post.pool.workers() == pre.pool.workers()
        &&& post.live@.len() + evicted.len() == pre.live@.len()
        &&& (forall|j: int|
            0 <= j < pre.live@.len() ==> (in_radius((#[trigger] pre.live@[j]).key, cell, r)
                ==> post.live@.contains(pre.live@[j])) && (!in_radius(pre.live@[j].key, cell, r)
                ==> evicted.contains(pre.live@[j].handle)))
        &&& (forall|a: int|
            0 <= a < post.live@.len() ==> pre.live@.contains(#[trigger] post.live@[a])
                && in_radius(post.live@[a].key, cell, r))
        &&& (forall|t: int|
            0 <= t < evicted.len() ==> #[trigger] Self::evicted_from(
                pre.live@,
                cell,
                r,
                evicted[t],
            ))
        &&& (forall|j: int|
            0 <= j < pre.pending@.len() && !in_radius((#[trigger] pre.pending@[j]).key, cell, r)
                ==> post.is_retired(pre.pending@[j].job))
        &&& (forall|id: u64| pre.is_retired(id) ==> post.is_retired(id))
        &&& (forall|j: int|
            0 <= j < pre.pending@.len() && in_radius((#[trigger] pre.pending@[j]).key, cell, r)
                ==> post.pending@.contains(pre.pending@[j]))
        &&& (pre.pool.workers() == 0 ==> stalled)
        &&& (pre.pool.workers() > 0 && pre.next_id + (2 * r + 1) * (2 * r + 1) <= u64::MAX
            ==> !stalled)
        &&& (stalled ==> post.queue() == pre.queue() && post.next_id == pre.next_id)
        &&& (!stalled ==> {
            &&& post.queue().take(n0) == pre.queue()
            &&& post.next_id == pre.next_id + suffix.len()
            &&& (forall|t: int|
                0 <= t < suffix.len() ==> (#[trigger] suffix[t]).id == pre.next_id + t
                    && suffix[t] == Self::job_for(suffix[t].key, suffix[t].id) && in_radius(
                    suffix[t].key,
                    cell,
                    r,
                ) && !pre.has_pending(suffix[t].key) && !pre.has_live(suffix[t].key) && (exists|
                    p: int,
                |
                    0 <= p < post.pending@.len() && #[trigger] post.pending@[p]
                        == Self::entry_for(suffix[t].key, suffix[t].id)))
            &&& (forall|k: MeshId|
                #![trigger pre.has_pending(k), pre.has_live(k)]
                in_radius(k, cell, r) && !pre.has_pending(k) && !pre.has_live(k) ==> exists|t: int|
                    0 <= t < suffix.len() && (#[trigger] suffix[t]).key == k)
            &&& (forall|t: int, u: int|
                0 <= t < u < suffix.len() ==> dist2(suffix[t].key, cell) <= dist2(
                    suffix[u].key,
                    cell,
                ) && suffix[t].key != suffix[u].key)
        })
    }

    /// Recomputes the wanted set around `cell`: evicts and cancels what
    /// fell out of range and dispatches every absent wanted key
    /// nearest-first.  Returns the handles the owning store should detach
    /// and whether dispatching was deferred because the pool can accept
    /// no work.
    #[verifier::rlimit(100)]
    pub fn load_region(&mut self, cell: MeshId) -> (out: (Vec<u64>, bool))
        requires
            old(self).wf(),
            center_in_bounds(cell),
        ensures
            final(self).wf(),
            Self::load_rel(*old(self), *final(self), cell, out.0@, out.1),
    {
        let ghost s0 = *old(self);
        let ghost rr: int = self.radius as int;
        let r = self.radius;
        let evicted = self.evict_to(cell, r);
        let ghost s1 = *self;
        self.cancel_to(cell, r);
        let ghost s2 = *self;
        self.center = cell;
        self.started = true;
        proof {
            Self::lemma_wf_recenter(s2, *self, cell);
        }
        let ghost s3 = *self;
        let missing = self.collect_missing(cell, r);
        let sorted = Self::sort_by_distance(missing, cell);
        proof {
            sorted@.to_multiset_ensures();
            missing@.to_multiset_ensures();
            assert(self.pending@ == s3.pending@ && self.live@ == s3.live@ && self.center == cell
                && self.radius == r);
            assert forall|t: int|
                0 <= t < sorted@.len() implies in_radius(#[trigger] sorted@[t], cell, rr)
                && !self.has_pending(sorted@[t]) && !self.has_live(sorted@[t]) by {
                let k = sorted@[t];
                assert(sorted@.contains(k));
                assert(sorted@.to_multiset().count(k) > 0);
                assert(missing@.to_multiset().count(k) > 0);
                assert(missing@.contains(k));
                let mi = choose|mi: int| 0 <= mi < missing@.len() && missing@[mi] == k;
                assert(in_radius(#[trigger] missing@[mi], cell, rr) && !s3.has_pending(
                    missing@[mi],
                ) && !s3.has_live(missing@[mi]));
                if self.has_pending(k) {
                    let p = choose|p: int|
                        0 <= p < self.pending@.len() && self.pending@[p].key == k;
                    assert(s3.pending@[p].key == k);
                    assert(s3.has_pending(k));
                }
                if self.has_live(k) {
                    let p = choose|p: int| 0 <= p < self.live@.len() && self.live@[p].key == k;
                    assert(s3.live@[p].key == k);
                    assert(s3.has_live(k));
                }
            }
            assert(missing@.no_duplicates()) by {
                assert forall|i: int, j: int|
                    0 <= i < missing@.len() && 0 <= j < missing@.len() && i
                        != j implies missing@[i] != missing@[j] by {
                    if i < j {
                        assert(missing@[i] != missing@[j]);
                    } else {
                        assert(missing@[j] != missing@[i]);
                    }
                }
            }
            missing@.lemma_multiset_has_no_duplicates();
            assert forall|x: MeshId|
                sorted@.to_multiset().contains(x) implies sorted@.to_multiset().count(x) == 1 by {
                assert(missing@.to_multiset().count(x) == sorted@.to_multiset().count(x));
                assert(missing@.to_multiset().contains(x));
                assert(missing@.contains(x));
                let mi = choose|mi: int| 0 <= mi < missing@.len() && missing@[mi] == x;
                assert(missing@.to_multiset().count(missing@[mi]) == 1);
            }
            sorted@.lemma_multiset_has_no_duplicates_conv();
            assert(sorted@.no_duplicates());
        }
        let stalled_now: bool;
        if self.pool.workers_alive() > 0 && self.next_id <= u64::MAX - (sorted.len() as u64) {
            self.dispatch_list(&sorted);
            let ghost s4 = *self;
            self.stalled = false;
            stalled_now = false;
            proof {
                assert forall|i: int| 0 <= i < self.inbox@.len() implies (
                #[trigger] self.inbox@[i].id) < self.next_id by {
                    assert(s4.inbox@[i].id < s4.next_id);
                }
                Self::lemma_wf_frame(s4, *self);
            }
        } else {
            let ghost s4 = *self;
            self.stalled = true;
            stalled_now = true;
            proof {
                assert forall|i: int| 0 <= i < self.inbox@.len() implies (
                #[trigger] self.inbox@[i].id) < self.next_id by {
                    assert(s4.inbox@[i].id < s4.next_id);
                }
                Self::lemma_wf_frame(s4, *self);
            }
        }
        let ghost sf = *self;
        proof {
            let n0: int = s0.queue().len() as int;
            assert(s1.pending@ == s0.pending@ && s1.retired@ == s0.retired@ && s1.inbox@
                == s0.inbox@ && s1.queue() == s0.queue() && s1.next_id == s0.next_id);
            assert(s2.live@ == s1.live@ && s2.inbox@ == s1.inbox@ && s2.queue() == s1.queue()
                && s2.next_id == s1.next_id);
            assert(s3.live@ == s2.live@ && s3.pending@ == s2.pending@ && s3.retired@
                == s2.retired@ && s3.inbox@ == s2.inbox@ && s3.queue() == s2.queue()
                && s3.next_id == s2.next_id);
            assert(sf.live@ == s3.live@ && sf.retired@ == s3.retired@ && sf.inbox@ == s3.inbox@);
            assert(sf.stalled == stalled_now);
            assert(sf.live@.len() + evicted@.len() == s0.live@.len());
            assert forall|j: int|
                0 <= j < s0.live@.len() implies (in_radius(
                (#[trigger] s0.live@[j]).key,
                cell,
                rr,
            ) ==> sf.live@.contains(s0.live@[j])) && (!in_radius(s0.live@[j].key, cell, rr)
                ==> evicted@.contains(s0.live@[j].handle)) by {
                if in_radius(s0.live@[j].key, cell, rr) {
                    assert(s1.live@.contains(s0.live@[j]));
                    let t = choose|t: int| 0 <= t < s1.live@.len() && s1.live@[t] == s0.live@[j];
                    assert(sf.live@[t] == s0.live@[j]);
                }
            }
            assert forall|a: int|
                0 <= a < sf.live@.len() implies s0.live@.contains(#[trigger] sf.live@[a])
                && in_radius(sf.live@[a].key, cell, rr) by {
                assert(sf.live@[a] == s1.live@[a]);
                assert(s0.live@.contains(s1.live@[a]) && in_radius(s1.live@[a].key, cell, rr));
            }
            assert forall|j: int|
                0 <= j < s0.pending@.len() && !in_radius(
                    (#[trigger] s0.pending@[j]).key,
                    cell,
                    rr,
                ) implies sf.is_retired(s0.pending@[j].job) by {
                assert(s1.pending@[j] == s0.pending@[j]);
                assert(s2.is_retired(s1.pending@[j].job));
                let t = choose|t: int|
                    0 <= t < s2.retired@.len() && s2.retired@[t] == s1.pending@[j].job;
                assert(sf.retired@[t] == s0.pending@[j].job);
            }
            assert forall|id: u64| s0.is_retired(id) implies sf.is_retired(id) by {
                let t = choose|t: int| 0 <= t < s0.retired@.len() && s0.retired@[t] == id;
                assert(s1.retired@[t] == id);
                assert(s1.is_retired(id));
                assert(s2.is_retired(id));
                let t2 = choose|t2: int| 0 <= t2 < s2.retired@.len() && s2.retired@[t2] == id;
                assert(sf.retired@[t2] == id);
            }
            assert forall|j: int|
                0 <= j < s0.pending@.len() && in_radius(
                    (#[trigger] s0.pending@[j]).key,
                    cell,
                    rr,
                ) implies sf.pending@.contains(s0.pending@[j]) by {
                let e = s0.pending@[j];
                assert(s1.pending@[j] == e);
                assert(s2.pending@.contains(s1.pending@[j]));
                let q = choose|q: int| 0 <= q < s2.pending@.len() && s2.pending@[q] == e;
                assert(sf.pending@[q] == e);
            }
            assert(s3.pool.workers() == s0.pool.workers());
            assert(sorted@.len() == missing@.len());
            if s0.pool.workers() > 0 && s0.next_id + (2 * rr + 1) * (2 * rr + 1) <= u64::MAX {
                assert(missing@.len() <= (2 * rr + 1) * (2 * rr + 1));
                assert(!stalled_now);
            }
            if stalled_now {
                assert(sf.queue() == s0.queue() && sf.next_id == s0.next_id);
            } else {
                let suffix = sf.queue().skip(n0);
                assert(sf.queue() =~= s3.queue() + Seq::new(
                    sorted@.len(),
                    |u: int| Self::job_for(sorted@[u], (s3.next_id + u) as u64),
                ));
                assert(suffix =~= Seq::new(
                    sorted@.len(),
                    |u: int| Self::job_for(sorted@[u], (s0.next_id + u) as u64),
                ));
                assert(sf.queue().take(n0) =~= s0.queue());
                assert(sf.pending@ =~= s3.pending@ + Seq::new(
                    sorted@.len(),
                    |u: int| Self::entry_for(sorted@[u], (s3.next_id + u) as u64),
                ));
                assert(sf.next_id == s0.next_id + suffix.len());
                assert forall|t: int|
                    0 <= t < suffix.len() implies (#[trigger] suffix[t]).id == s0.next_id + t
                    && suffix[t] == Self::job_for(suffix[t].key, suffix[t].id) && in_radius(
                    suffix[t].key,
                    cell,
                    rr,
                ) && !s0.has_pending(suffix[t].key) && !s0.has_live(suffix[t].key) && (exists|
                    p: int,
                |
                    0 <= p < sf.pending@.len() && #[trigger] sf.pending@[p] == Self::entry_for(
                        suffix[t].key,
                        suffix[t].id,
                    )) by {
                    let k = sorted@[t];
                    assert(suffix[t] == Self::job_for(k, (s0.next_id + t) as u64));
                    sorted@.to_multiset_ensures();
                    missing@.to_multiset_ensures();
                    assert(sorted@.contains(k));
                    assert(sorted@.to_multiset().count(k) > 0);
                    assert(missing@.to_multiset().count(k) > 0);
                    assert(missing@.contains(k));
                    let mi = choose|mi: int| 0 <= mi < missing@.len() && missing@[mi] == k;
                    assert(in_radius(#[trigger] missing@[mi], cell, rr) && !s3.has_pending(
                        missing@[mi],
                    ) && !s3.has_live(missing@[mi]));
                    if s0.has_pending(k) {
                        let pj = choose|pj: int|
                            0 <= pj < s0.pending@.len() && s0.pending@[pj].key == k;
                        assert(s1.pending@[pj] == s0.pending@[pj]);
                        assert(in_radius(s1.pending@[pj].key, cell, rr));
                        assert(s2.pending@.contains(s1.pending@[pj]));
                        let q = choose|q: int|
                            0 <= q < s2.pending@.len() && s2.pending@[q] == s1.pending@[pj];
                        assert(s3.pending@[q].key == k);
                        assert(s3.has_pending(k));
                    }
                    if s0.has_live(k) {
                        let lj = choose|lj: int|
                            0 <= lj < s0.live@.len() && s0.live@[lj].key == k;
                        assert(in_radius(s0.live@[lj].key, cell, rr));
                        assert(s1.live@.contains(s0.live@[lj]));
                        let qq = choose|qq: int|
                            0 <= qq < s1.live@.len() && s1.live@[qq] == s0.live@[lj];
                        assert(s3.live@[qq].key == k);
                        assert(s3.has_live(k));
                    }
                    let pidx: int = s3.pending@.len() as int + t;
                    assert(sf.pending@[pidx] == Self::entry_for(k, (s0.next_id + t) as u64));
                }
                assert forall|k: MeshId|
                    #![trigger s0.has_pending(k), s0.has_live(k)]
                    in_radius(k, cell, rr) && !s0.has_pending(k) && !s0.has_live(
                        k,
                    ) implies exists|t: int|
                    0 <= t < suffix.len() && (#[trigger] suffix[t]).key == k by {
                    if s3.has_pending(k) {
                        let q = choose|q: int|
                            0 <= q < s3.pending@.len() && s3.pending@[q].key == k;
                        assert(s1.pending@.contains(s2.pending@[q]));
                        let j = choose|j: int|
                            0 <= j < s1.pending@.len() && s1.pending@[j] == s2.pending@[q];
                        assert(s0.pending@[j].key == k);
                        assert(s0.has_pending(k));
                    }
                    if s3.has_live(k) {
                        let q = choose|q: int| 0 <= q < s3.live@.len() && s3.live@[q].key == k;
                        assert(s0.live@.contains(s1.live@[q]));
                        let j = choose|j: int|
                            0 <= j < s0.live@.len() && s0.live@[j] == s1.live@[q];
                        assert(s0.live@[j].key == k);
                        assert(s0.has_live(k));
                    }
                    assert(missing@.contains(k));
                    missing@.to_multiset_ensures();
                    sorted@.to_multiset_ensures();
                    let mi = choose|mi: int| 0 <= mi < missing@.len() && missing@[mi] == k;
                    assert(missing@.to_multiset().count(k) > 0);
                    assert(sorted@.to_multiset().count(k) > 0);
                    assert(sorted@.contains(k));
                    let st = choose|st: int| 0 <= st < sorted@.len() && sorted@[st] == k;
                    assert(suffix[st].key == k);
                }
                assert forall|t: int, u: int|
                    0 <= t < u < suffix.len() implies dist2(suffix[t].key, cell) <= dist2(
                    suffix[u].key,
                    cell,
                ) && suffix[t].key != suffix[u].key by {
                    assert(suffix[t].key == sorted@[t] && suffix[u].key == sorted@[u]);
                    assert(dist2(sorted@[t], cell) <= dist2(sorted@[u], cell));
                    assert(sorted@[t] != sorted@[u]);
                }
            }
            assert(Self::load_rel(s0, sf, cell, evicted@, stalled_now));
        }
        (evicted, stalled_now)
    }

    /// One tick of the streaming engine.  Converts the world position to
    /// its grid cell; on a cell transition (or after a stalled dispatch,
    /// or on the first call) evicts and cancels everything that fell out
    /// of range and dispatches every absent wanted key nearest-first;
    /// then drains at most one worker completion.  The caller detaches the
    /// returned handles from the owning store and, if a result is ready,
    /// installs it and acknowledges with `install`.
    ///
    /// Updating is idempotent in the viewpoint: while the cell is
    /// unchanged and no dispatch is deferred, a call evicts nothing and
    /// dispatches nothing, and leaves the queue and the live set as they
    /// were.
    #[verifier::rlimit(100)]
    pub fn update(&mut self, wx: i32, wz: i32) -> (out: UpdateOutcome)
        requires
            old(self).wf(),
        ensures
            final(self).wf(),
            final(self).started,
            final(self).center == cell_of(wx as int, wz as int),
            final(self).radius == old(self).radius,
            final(self).pool.workers() == old(self).pool.workers(),
            ({
                let cell = cell_of(wx as int, wz as int);
                if old(self).started && old(self).center == cell && !old(self).stalled {
                    &&& Self::drain_rel(*old(self), *final(self), out.ready)
                    &&& out.evicted@ == Seq::<u64>::empty()
                    &&& !out.stalled
                } else {
                    Self::recompute_rel(
                        *old(self),
                        *final(self),
                        cell,
                        out.evicted@,
                        out.ready,
                        out.stalled,
                    )
                }
            }),
    {
        let cell = world_to_chunk_space(wx, wz);
        if self.started && self.center == cell && !self.stalled {
            let ready = self.drain();
            UpdateOutcome { evicted: Vec::new(), ready, stalled: false }
        } else {
            let ghost s0 = *old(self);
            let ghost rr: int = self.radius as int;
            let lr = self.load_region(cell);
            let ghost s5 = *self;
            let evicted = lr.0;
            let stalled_now = lr.1;
            let ready = self.drain();
            let ghost sf = *self;
            proof {
                let n0: int = s0.queue().len() as int;
                assert(sf.live@ == s5.live@ && sf.queue() == s5.queue() && sf.next_id
                    == s5.next_id && sf.stalled == s5.stalled && sf.started == s5.started
                    && sf.center == s5.center && sf.radius == s5.radius);
                assert(s5.inbox@ == s0.inbox@);
                // live set unchanged by the drain
                assert forall|j: int|
                    0 <= j < s0.live@.len() implies (in_radius(
                    (#[trigger] s0.live@[j]).key,
                    cell,
                    rr,
                ) ==> sf.live@.contains(s0.live@[j])) && (!in_radius(s0.live@[j].key, cell, rr)
                    ==> evicted@.contains(s0.live@[j].handle)) by {
                    if in_radius(s0.live@[j].key, cell, rr) {
                        assert(s5.live@.contains(s0.live@[j]));
                        let t = choose|t: int|
                            0 <= t < s5.live@.len() && s5.live@[t] == s0.live@[j];
                        assert(sf.live@[t] == s0.live@[j]);
                    }
                }
                assert forall|a: int|
                    0 <= a < sf.live@.len() implies s0.live@.contains(#[trigger] sf.live@[a])
                    && in_radius(sf.live@[a].key, cell, rr) by {
                    assert(s5.live@[a] == sf.live@[a]);
                    assert(s0.live@.contains(s5.live@[a]) && in_radius(
                        s5.live@[a].key,
                        cell,
                        rr,
                    ));
                }
                // retired identifiers of the recompute survive the drain
                assert forall|t: int|
                    0 <= t < s5.retired@.len() implies t < sf.retired@.len() && sf.retired@[t]
                    == s5.retired@[t] by {
                    if s5.inbox@.len() > 0 {
                        let c = s5.inbox@[0];
                        if s5.completion_matches(c) && !c.ok {
                            assert(sf.retired@ == s5.retired@.push(c.id));
                        }
                    }
                }
                assert forall|j: int|
                    0 <= j < s0.pending@.len() && !in_radius(
                        (#[trigger] s0.pending@[j]).key,
                        cell,
                        rr,
                    ) implies sf.is_retired(s0.pending@[j].job) by {
                    assert(s5.is_retired(s0.pending@[j].job));
                    let t = choose|t: int|
                        0 <= t < s5.retired@.len() && s5.retired@[t] == s0.pending@[j].job;
                    assert(sf.retired@[t] == s0.pending@[j].job);
                }
                assert forall|id: u64| s0.is_retired(id) implies sf.is_retired(id) by {
                    assert(s5.is_retired(id));
                    let t = choose|t: int| 0 <= t < s5.retired@.len() && s5.retired@[t] == id;
                    assert(sf.retired@[t] == id);
                }
                // surviving pending keys, minus at most one drained failure
                assert forall|j: int|
                    0 <= j < s0.pending@.len() && in_radius(
                        (#[trigger] s0.pending@[j]).key,
                        cell,
                        rr,
                    ) implies sf.has_pending(s0.pending@[j].key) || (s0.inbox@.len() > 0
                    && s0.inbox@[0].id == s0.pending@[j].job && s0.inbox@[0].key
                    == s0.pending@[j].key && !s0.inbox@[0].ok) by {
                    let e = s0.pending@[j];
                    assert(s5.pending@.contains(e));
                    let q = choose|q: int| 0 <= q < s5.pending@.len() && s5.pending@[q] == e;
                    if s5.inbox@.len() > 0 {
                        let c = s5.inbox@[0];
                        if s5.completion_matches(c) && !c.ok {
                            let p = choose|p: int|
                                0 <= p < s5.pending@.len() && (#[trigger] s5.pending@[p]).job
                                    == c.id && s5.pending@[p].key == c.key && sf.pending@
                                    == s5.pending@.remove(p);
                            if p == q {
                                assert(c.id == e.job && c.key == e.key && !c.ok);
                            } else if q < p {
                                assert(sf.pending@[q] == s5.pending@[q]);
                                assert(sf.has_pending(e.key));
                            } else {
                                assert(sf.pending@[q - 1] == s5.pending@[q]);
                                assert(sf.has_pending(e.key));
                            }
                        } else {
                            assert(sf.pending@ == s5.pending@);
                            assert(sf.pending@[q].key == e.key);
                            assert(sf.has_pending(e.key));
                        }
                    } else {
                        assert(sf.pending@ == s5.pending@);
                        assert(sf.pending@[q].key == e.key);
                        assert(sf.has_pending(e.key));
                    }
                }
                if !stalled_now {
                    let suffix = sf.queue().skip(n0);
                    assert(suffix == s5.queue().skip(n0));
                    assert forall|t: int|
                        0 <= t < suffix.len() implies (#[trigger] suffix[t]).id == s0.next_id + t
                        && suffix[t] == Self::job_for(suffix[t].key, suffix[t].id) && in_radius(
                        suffix[t].key,
                        cell,
                        rr,
                    ) && !s0.has_pending(suffix[t].key) && !s0.has_live(suffix[t].key)
                        && sf.has_pending(suffix[t].key) by {
                        let p = choose|p: int|
                            0 <= p < s5.pending@.len() && #[trigger] s5.pending@[p]
                                == Self::entry_for(suffix[t].key, suffix[t].id);
                        if s5.inbox@.len() > 0 {
                            let c = s5.inbox@[0];
                            if s5.completion_matches(c) && !c.ok {
                                let dp = choose|dp: int|
                                    0 <= dp < s5.pending@.len() && (
                                    #[trigger] s5.pending@[dp]).job == c.id && s5.pending@[dp].key
                                        == c.key && sf.pending@ == s5.pending@.remove(dp);
                                assert(s0.inbox@[0].id < s0.next_id);
                                assert(s5.pending@[p].job == suffix[t].id);
                                assert(suffix[t].id >= s0.next_id);
                                assert(dp != p);
                                if dp < p {
                                    assert(sf.pending@[p - 1] == s5.pending@[p]);
                                } else {
                                    assert(sf.pending@[p] == s5.pending@[p]);
                                }
                                assert(sf.has_pending(suffix[t].key));
                            } else {
                                assert(sf.pending@ == s5.pending@);
                                assert(sf.pending@[p].key == suffix[t].key);
                                assert(sf.has_pending(suffix[t].key));
                            }
                        } else {
                            assert(sf.pending@ == s5.pending@);
                            assert(sf.pending@[p].key == suffix[t].key);
                            assert(sf.has_pending(suffix[t].key));
                        }
                    }
                }
                // the ready offer
                match ready {
                    Some(x) => {
                        assert(s5.inbox@.len() > 0);
                        let c = s5.inbox@[0];
                        assert(s5.completion_matches(c) && c.ok);
                        assert(x.key == c.key && Self::ready_origin_ok(x));
                        assert(sf.pending@ == s5.pending@);
                        let p = choose|p: int|
                            0 <= p < s5.pending@.len() && (#[trigger] s5.pending@[p]).job == c.id
                                && s5.pending@[p].key == c.key;
                        assert(sf.pending@[p].key == x.key);
                        assert(sf.has_pending(x.key));
                    },
                    None => {},
                }
                // the inbox shrinks by at most the drained head
                if s5.inbox@.len() > 0 {
                    let c = s5.inbox@[0];
                    if !s5.completion_matches(c) {
                        assert(sf.inbox@ == s0.inbox@.drop_first());
                    } else if !c.ok {
                        assert(sf.inbox@ == s0.inbox@.drop_first());
                    } else {
                        assert(sf.inbox@ == s0.inbox@);
                    }
                } else {
                    assert(sf.inbox@ == s0.inbox@);
                }
                assert(Self::recompute_rel(s0, sf, cell, evicted@, ready, stalled_now));
            }
            UpdateOutcome { evicted, ready, stalled: stalled_now }
        }
    }


    /// Records a worker's report that the job with identifier `id` for key
    /// `key` finished, with `ok` telling success from generation failure.
    /// The report is only buffered; `update` decides what it means.
    pub fn submit(&mut self, id: u64, key: MeshId, ok: bool)
        requires
            old(self).wf(),
            id < old(self).next_id,
        ensures
            final(self).wf(),
            final(self).inbox@ == old(self).inbox@.push(Completion { id, key, ok }),
            final(self).pending@ == old(self).pending@,
            final(self).live@ == old(self).live@,
            final(self).retired@ == old(self).retired@,
            final(self).pool == old(self).pool,
            final(self).started == old(self).started,
            final(self).center == old(self).center,
            final(self).radius == old(self).radius,
            final(self).next_id == old(self).next_id,
            final(self).stalled == old(self).stalled,
    {
        self.inbox.push(Completion { id, key, ok });
        proof {
            assert forall|i: int| 0 <= i < self.inbox@.len() implies (
            #[trigger] self.inbox@[i].id) < self.next_id by {
                if i < old(self).inbox@.len() {
                    assert(self.inbox@[i] == old(self).inbox@[i]);
                    assert(old(self).inbox@[i].id < old(self).next_id);
                } else {
                    assert(self.inbox@[i] == (Completion { id, key, ok }));
                }
            }
            Self::lemma_wf_frame(*old(self), *self);
        }
    }

    /// Records that one worker thread terminated.
    pub fn worker_exit(&mut self)
        requires
            old(self).wf(),
        ensures
            final(self).wf(),
            old(self).pool.workers() > 0 ==> final(self).pool.workers() == (old(self).pool.workers()
                - 1) as nat,
            old(self).pool.workers() == 0 ==> final(self).pool.workers() == 0,
            final(self).queue() == old(self).queue(),
            final(self).pending@ == old(self).pending@,
            final(self).live@ == old(self).live@,
            final(self).retired@ == old(self).retired@,
            final(self).inbox@ == old(self).inbox@,
            final(self).started == old(self).started,
            final(self).center == old(self).center,
            final(self).radius == old(self).radius,
            final(self).next_id == old(self).next_id,
            final(self).stalled == old(self).stalled,
    {
        self.pool.worker_exit();
        proof {
            assert forall|i: int| 0 <= i < self.inbox@.len() implies (
            #[trigger] self.inbox@[i].id) < self.next_id by {
                assert(old(self).inbox@[i].id < old(self).next_id);
            }
            Self::lemma_wf_frame(*old(self), *self);
        }
    }

    /// Popping the front of the job queue changes no other state and
    /// preserves the invariant.
    proof fn lemma_wf_after_take(pre: StreamingManager, post: StreamingManager)
        requires
            pre.wf(),
            pre.queue().len() > 0,
            post.queue() == pre.queue().drop_first(),
            post.pending@ == pre.pending@,
            post.live@ == pre.live@,
            post.retired@ == pre.retired@,
            post.inbox@ == pre.inbox@,
            post.started == pre.started,
            post.center == pre.center,
            post.radius == pre.radius,
            post.next_id == pre.next_id,
        ensures
            post.wf(),
    {
        assert(forall|i: int|
            0 <= i < post.queue().len() ==> #[trigger] post.queue()[i] == pre.queue()[i + 1]);
        assert forall|i: int|
            0 <= i < post.queue().len() implies post.is_retired(
            (#[trigger] post.queue()[i]).id,
        ) || exists|p: int|
            0 <= p < post.pending@.len() && (#[trigger] post.pending@[p]).job == post.queue()[i].id
                && post.pending@[p].key == post.queue()[i].key && post.pending@[p].origin_x
                == post.queue()[i].origin_x && post.pending@[p].origin_z
                == post.queue()[i].origin_z by {
            assert(post.queue()[i] == pre.queue()[i + 1]);
            assert(pre.is_retired(pre.queue()[i + 1].id) || exists|p: int|
                0 <= p < pre.pending@.len() && (#[trigger] pre.pending@[p]).job == pre.queue()[i
                    + 1].id && pre.pending@[p].key == pre.queue()[i + 1].key
                    && pre.pending@[p].origin_x == pre.queue()[i + 1].origin_x
                    && pre.pending@[p].origin_z == pre.queue()[i + 1].origin_z);
        }
    }

    /// Takes the next job a worker should execute, skipping every queued
    /// job that was cancelled before pickup.  A returned job always
    /// belongs to a pending entry with the same key and origin; in
    /// particular no job whose key was evicted while still queued is ever
    /// handed to a worker.
    pub fn next_job(&mut self) -> (r: Option<Job>)
        requires
            old(self).wf(),
        ensures
            final(self).wf(),
            final(self).pending@ == old(self).pending@,
            final(self).live@ == old(self).live@,
            final(self).retired@ == old(self).retired@,
            final(self).inbox@ == old(self).inbox@,
            final(self).started == old(self).started,
            final(self).center == old(self).center,
            final(self).radius == old(self).radius,
            final(self).next_id == old(self).next_id,
            final(self).stalled == old(self).stalled,
            final(self).pool.workers() == old(self).pool.workers(),
            match r {
                Some(j) => exists|i: int|
                    0 <= i < old(self).queue().len() && old(self).queue()[i] == j
                    && final(self).queue() == old(self).queue().skip(i + 1) && (forall|t: int|
                        0 <= t < i ==> old(self).is_retired(
                            (#[trigger] old(self).queue()[t]).id,
                        )),
                None => final(self).queue().len() == 0 && (forall|t: int|
                    0 <= t < old(self).queue().len() ==> old(self).is_retired(
                        (#[trigger] old(self).queue()[t]).id,
                    )),
            },
            r matches Some(j) ==> !old(self).is_retired(j.id) && (exists|p: int|
                0 <= p < old(self).pending@.len() && (#[trigger] old(self).pending@[p]).job == j.id
                    && old(self).pending@[p].key == j.key && old(self).pending@[p].origin_x
                    == j.origin_x && old(self).pending@[p].origin_z == j.origin_z),
    {
        let ghost popped: int = 0;
        let ghost mut popped = popped;
        loop
            invariant
                self.wf(),
                0 <= popped <= old(self).queue().len(),
                self.queue() =~= old(self).queue().skip(popped),
                forall|t: int|
                    0 <= t < popped ==> old(self).is_retired(
                        (#[trigger] old(self).queue()[t]).id,
                    ),
                self.pending@ == old(self).pending@,
                self.live@ == old(self).live@,
                self.retired@ == old(self).retired@,
                self.inbox@ == old(self).inbox@,
                self.started == old(self).started,
                self.center == old(self).center,
                self.radius == old(self).radius,
                self.next_id == old(self).next_id,
                self.stalled == old(self).stalled,
                self.pool.workers() == old(self).pool.workers(),
            decreases old(self).queue().len() - popped,
        {
            let ghost prev = *self;
            match self.pool.take() {
                None => {
                    return None;
                },
                Some(j) => {
                    proof {
                        Self::lemma_wf_after_take(prev, *self);
                        assert(j == old(self).queue()[popped]);
                        assert(self.queue() =~= old(self).queue().skip(popped + 1));
                    }
                    if self.retired_contains(j.id) {
                        proof {
                            popped = popped + 1;
                        }
                    } else {
                        proof {
                            assert(old(self).queue()[popped] == j);
                        }
                        return Some(j);
                    }
                },
            }
        }
    }

    /// How one `drain` call relates the state before it to the state
    /// after it and to the result it offers.
    pub open spec fn drain_rel(
        pre: StreamingManager,
        post: StreamingManager,
        r: Option<ReadyResult>,
    ) -> bool {
        &&& post.queue() == pre.queue()
        &&& post.live@ == pre.live@
        &&& post.started == pre.started
        &&& post.center == pre.center
        &&& post.radius == pre.radius
        &&& post.next_id == pre.next_id
        &&& post.stalled == pre.stalled
        &&& post.pool.workers() == pre.pool.workers()
        &&& (pre.inbox@.len() == 0 ==> r is None && post.inbox@ == pre.inbox@ && post.pending@
            == pre.pending@ && post.retired@ == pre.retired@)
        &&& (pre.inbox@.len() > 0 ==> ({
            let c = pre.inbox@[0];
            &&& (!pre.completion_matches(c) ==> r is None && post.inbox@
                == pre.inbox@.drop_first() && post.pending@ == pre.pending@ && post.retired@
                == pre.retired@)
            &&& (pre.completion_matches(c) && !c.ok ==> r is None && post.inbox@
                == pre.inbox@.drop_first() && (exists|p: int|
                0 <= p < pre.pending@.len() && (#[trigger] pre.pending@[p]).job == c.id
                    && pre.pending@[p].key == c.key && post.pending@ == pre.pending@.remove(p))
                && post.retired@ == pre.retired@.push(c.id))
            &&& (pre.completion_matches(c) && c.ok ==> (match r {
                Some(rr) => rr.key == c.key && Self::ready_origin_ok(rr),
                None => false,
            }) && post.inbox@ == pre.inbox@ && post.pending@ == pre.pending@ && post.retired@
                == pre.retired@)
        }))
    }

    /// How a viewpoint-cell transition relates the state before `update`
    /// to the state after it and to what it asks the caller to do: live
    /// and pending keys outside the new radius are evicted and cancelled,
    /// every absent wanted key is dispatched nearest-first under fresh
    /// consecutive identifiers unless the pool can accept no work, and at
    /// most the oldest completion is drained.
    pub open spec fn recompute_rel(
        pre: StreamingManager,
        post: StreamingManager,
        cell: MeshId,
        evicted: Seq<u64>,
        ready: Option<ReadyResult>,
        stalled: bool,
    ) -> bool {
        let r = pre.radius as int;
        let n0 = pre.queue().len() as int;
        let suffix = post.queue().skip(n0);
        &&& post.stalled == stalled
        &&& post.live@.len() + evicted.len() == pre.live@.len()
        &&& (forall|j: int|
            0 <= j < pre.live@.len() ==> (in_radius((#[trigger] pre.live@[j]).key, cell, r)
                ==> post.live@.contains(pre.live@[j])) && (!in_radius(pre.live@[j].key, cell, r)
                ==> evicted.contains(pre.live@[j].handle)))
        &&& (forall|a: int|
            0 <= a < post.live@.len() ==> pre.live@.contains(#[trigger] post.live@[a])
                && in_radius(post.live@[a].key, cell, r))
        &&& (forall|t: int|
            0 <= t < evicted.len() ==> #[trigger] Self::evicted_from(
                pre.live@,
                cell,
                r,
                evicted[t],
            ))
        &&& (forall|j: int|
            0 <= j < pre.pending@.len() && !in_radius((#[trigger] pre.pending@[j]).key, cell, r)
                ==> post.is_retired(pre.pending@[j].job))
        &&& (forall|id: u64| pre.is_retired(id) ==> post.is_retired(id))
        &&& (forall|j: int|
            0 <= j < pre.pending@.len() && in_radius((#[trigger] pre.pending@[j]).key, cell, r)
                ==> post.has_pending(pre.pending@[j].key) || (pre.inbox@.len() > 0
                && pre.inbox@[0].id == pre.pending@[j].job && pre.inbox@[0].key
                == pre.pending@[j].key && !pre.inbox@[0].ok))
        &&& (pre.pool.workers() == 0 ==> stalled)
        &&& (pre.pool.workers() > 0 && pre.next_id + (2 * r + 1) * (2 * r + 1) <= u64::MAX
            ==> !stalled)
        &&& (stalled ==> post.queue() == pre.queue() && post.next_id == pre.next_id)
        &&& (!stalled ==> {
            &&& post.queue().take(n0) == pre.queue()
            &&& post.next_id == pre.next_id + suffix.len()
            &&& (forall|t: int|
                0 <= t < suffix.len() ==> (#[trigger] suffix[t]).id == pre.next_id + t
                    && suffix[t] == Self::job_for(suffix[t].key, suffix[t].id) && in_radius(
                    suffix[t].key,
                    cell,
                    r,
                ) && !pre.has_pending(suffix[t].key) && !pre.has_live(suffix[t].key)
                    && post.has_pending(suffix[t].key))
            &&& (forall|k: MeshId|
                #![trigger pre.has_pending(k), pre.has_live(k)]
                in_radius(k, cell, r) && !pre.has_pending(k) && !pre.has_live(k) ==> exists|t: int|
                    0 <= t < suffix.len() && (#[trigger] suffix[t]).key == k)
            &&& (forall|t: int, u: int|
                0 <= t < u < suffix.len() ==> dist2(suffix[t].key, cell) <= dist2(
                    suffix[u].key,
                    cell,
                ) && suffix[t].key != suffix[u].key)
        })
        &&& (match ready {
            Some(rr) => Self::ready_origin_ok(rr) && post.has_pending(rr.key) && pre.inbox@.len()
                > 0 && pre.inbox@[0].ok && pre.inbox@[0].key == rr.key,
            None => true,
        })
        &&& (post.inbox@ == pre.inbox@ || post.inbox@ == pre.inbox@.drop_first())
    }

    /// Looks at the oldest undrained completion, if any.  A report that no
    /// pending entry is waiting for is discarded; a generation failure
    /// returns its key to absent, so a future recompute can retry it; a
    /// success is offered to the caller for installation and stays queued
    /// until `install` acknowledges it.  At most one completion is
    /// consumed per call.
    pub fn drain(&mut self) -> (r: Option<ReadyResult>)
        requires
            old(self).wf(),
        ensures
            final(self).wf(),
            Self::drain_rel(*old(self), *final(self), r),
    {
        if self.inbox.len() == 0 {
            return None;
        }
        let c = self.inbox[0];
        match self.find_pending_job(c.id, c.key) {
            None => {
                self.inbox.remove(0);
                proof {
                    assert(self.inbox@ =~= old(self).inbox@.drop_first());
                    assert forall|i: int| 0 <= i < self.inbox@.len() implies (
                    #[trigger] self.inbox@[i].id) < self.next_id by {
                        assert(old(self).inbox@[i + 1].id < old(self).next_id);
                    }
                    Self::lemma_wf_frame(*old(self), *self);
                }
                None
            },
            Some(p) => {
                if !c.ok {
                    let ghost pi = p as int;
                    let e = self.pending.remove(p);
                    self.retired.push(e.job);
                    self.inbox.remove(0);
                    proof {
                        assert(self.inbox@ =~= old(self).inbox@.drop_first());
                        assert forall|i: int| 0 <= i < self.inbox@.len() implies (
                        #[trigger] self.inbox@[i].id) < self.next_id by {
                            assert(old(self).inbox@[i + 1].id < old(self).next_id);
                        }
                        Self::lemma_wf_retire(*old(self), *self, pi, None);
                    }
                    None
                } else {
                    let e = self.pending[p];
                    Some(ReadyResult { key: e.key, origin_x: e.origin_x, origin_z: e.origin_z })
                }
            },
        }
    }

    /// Moves the key of the currently offered completion from pending to
    /// live, recording the handle the owning store returned for it.
    /// Returns whether anything was installed: the call succeeds exactly
    /// when the oldest undrained completion is a success for `key` that a
    /// pending entry is waiting for, as after `drain` returned it.
    pub fn install(&mut self, key: MeshId, handle: u64) -> (r: bool)
        requires
            old(self).wf(),
        ensures
            final(self).wf(),
            final(self).queue() == old(self).queue(),
            final(self).started == old(self).started,
            final(self).center == old(self).center,
            final(self).radius == old(self).radius,
            final(self).next_id == old(self).next_id,
            final(self).stalled == old(self).stalled,
            final(self).pool.workers() == old(self).pool.workers(),
            r == (old(self).inbox@.len() > 0 && ({
                let c = old(self).inbox@[0];
                c.ok && c.key == key && old(self).completion_matches(c)
            })),
            r ==> final(self).inbox@ == old(self).inbox@.drop_first() && (exists|p: int|
                0 <= p < old(self).pending@.len() && (#[trigger] old(self).pending@[p]).job == old(self).inbox@[0].id && old(self).pending@[p].key == key && final(self).pending@ == old(self).pending@.remove(p)) && final(self).retired@ == old(self).retired@.push(
                old(self).inbox@[0].id,
            ) && final(self).live@ == old(self).live@.push(LiveEntry { key, handle }),
            !r ==> final(self).inbox@ == old(self).inbox@ && final(self).pending@ == old(self).pending@ && final(self).retired@ == old(self).retired@ && final(self).live@ == old(self).live@,
    {
        if self.inbox.len() == 0 {
            return false;
        }
        let c = self.inbox[0];
        if !c.ok || !(c.key == key) {
            return false;
        }
        match self.find_pending_job(c.id, c.key) {
            None => false,
            Some(p) => {
                let ghost pi = p as int;
                self.pending.remove(p);
                self.retired.push(c.id);
                self.inbox.remove(0);
                self.live.push(LiveEntry { key, handle });
                proof {
                    assert(self.inbox@ =~= old(self).inbox@.drop_first());
                    assert forall|i: int| 0 <= i < self.inbox@.len() implies (
                    #[trigger] self.inbox@[i].id) < self.next_id by {
                        assert(old(self).inbox@[i + 1].id < old(self).next_id);
                    }
                    Self::lemma_wf_retire(
                        *old(self),
                        *self,
                        pi,
                        Some(LiveEntry { key, handle }),
                    );
                }
                true
            },
        }
    }
/// At any point, a key is in exactly one of the three states absent,
    /// pending and live: a well-formed manager never tracks a key as both
    /// pending and live, and absent means tracked as neither.
    pub proof fn lemma_key_state_exclusive(m: StreamingManager, k: MeshId)
        requires
            m.wf(),
        ensures
            !(m.has_pending(k) && m.has_live(k)),
    {
        if m.has_pending(k) && m.has_live(k) {
            let i = choose|i: int| 0 <= i < m.pending@.len() && m.pending@[i].key == k;
            let j = choose|j: int| 0 <= j < m.live@.len() && m.live@[j].key == k;
            assert(m.pending@[i].key != m.live@[j].key);
        }
    }

    /// No spurious installation: every live key is wanted by the current
    /// viewpoint, and so was wanted at the tick it was installed.
    pub proof fn lemma_live_keys_wanted(m: StreamingManager, k: MeshId)
        requires
            m.wf(),
            m.has_live(k),
        ensures
            m.started,
            in_radius(k, m.center, m.radius as int),
    {
        let j = choose|j: int| 0 <= j < m.live@.len() && m.live@[j].key == k;
        assert(m.wanted(m.live@[j].key));
    }

    /// Every pending key is wanted by the current viewpoint: jobs for
    /// keys that fall out of range are cancelled, never left in flight.
    pub proof fn lemma_pending_keys_wanted(m: StreamingManager, k: MeshId)
        requires
            m.wf(),
            m.has_pending(k),
        ensures
            m.started,
            in_radius(k, m.center, m.radius as int),
    {
        let j = choose|j: int| 0 <= j < m.pending@.len() && m.pending@[j].key == k;
        assert(m.wanted(m.pending@[j].key));
    }

    /// A result is handed to the owning store at most once per dispatch:
    /// once a key is live, no completion can match it any more, so
    /// neither `drain` offers it nor `install` accepts it again until the
    /// key is evicted and dispatched anew.
    pub proof fn lemma_no_reinstall_while_live(m: StreamingManager, c: Completion)
        requires
            m.wf(),
            m.has_live(c.key),
        ensures
            !m.completion_matches(c),
    {
        if m.completion_matches(c) {
            let p = choose|p: int|
                0 <= p < m.pending@.len() && (#[trigger] m.pending@[p]).job == c.id
                    && m.pending@[p].key == c.key;
            let j = choose|j: int| 0 <= j < m.live@.len() && m.live@[j].key == c.key;
            assert(m.pending@[p].key != m.live@[j].key);
        }
    }
}

} // verus!
