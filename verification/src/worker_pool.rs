//! External worker pool: lifecycle of remote worker endpoints.
//!
//! The pool serves two control operations — start a worker, stop a worker —
//! against a table of worker records keyed by worker id.  The serving loop
//! and its transport live outside the library; here is the table itself and
//! the pool's cooperative-shutdown state.  The table is an association list
//! with unique ids, viewed as a map from id to record.

use vstd::prelude::*;

verus! {

/// Control-endpoint configuration handed to a started worker.
#[derive(Clone, Debug)]
pub struct WorkerEndpoints {
    pub control_endpoint_url: Option<String>,
}

impl WorkerEndpoints {
    pub fn new(control_endpoint_url: Option<String>) -> (r: Self)
        ensures
            r.control_endpoint_url == control_endpoint_url,
    {
        WorkerEndpoints { control_endpoint_url }
    }
}

/// One worker record: its id, its control-endpoint configuration, and its
/// stop handle — a cancellation flag the transport side observes to wind the
/// worker down.
#[derive(Clone, Debug)]
pub struct Worker {
    pub id: String,
    pub endpoints: WorkerEndpoints,
    pub stop_requested: bool,
}

impl Worker {
    pub fn new(id: String, endpoints: WorkerEndpoints) -> (r: Self)
        ensures
            r.id == id,
            r.endpoints == endpoints,
            !r.stop_requested,
    {
        Worker { id, endpoints, stop_requested: false }
    }

    /// Raises the record's stop signal; identity and endpoints are untouched.
    pub fn stop(&mut self)
        ensures
            final(self).id == old(self).id,
            final(self).endpoints == old(self).endpoints,
            final(self).stop_requested,
    {
        self.stop_requested = true;
    }
}

/// A start-worker request: the worker id and its control endpoint address.
#[derive(Clone, Debug)]
pub struct StartWorkerRequest {
    pub worker_id: String,
    pub control_endpoint_url: Option<String>,
}

/// A stop-worker request: the id of the worker to stop.
#[derive(Clone, Debug)]
pub struct StopWorkerRequest {
    pub worker_id: String,
}

/// The pool service: the worker table, the serving address, and the
/// cooperative cancellation flag its serving loop observes.
pub struct ExternalWorkerPool {
    address: String,
    cancelled: bool,
    workers: Vec<(String, Worker)>,
}

/// The table as a map from worker id to record.
pub open spec fn workers_map(ws: Seq<(String, Worker)>) -> Map<Seq<char>, Worker>
    decreases ws.len(),
{
    if ws.len() == 0 {
        Map::empty()
    } else {
        workers_map(ws.drop_last()).insert(ws.last().0@, ws.last().1)
    }
}

/// Ids are unique, so the list and its map view carry the same information.
pub open spec fn ids_unique(ws: Seq<(String, Worker)>) -> bool {
    forall|i: int, j: int| 0 <= i < j < ws.len() ==> ws[i].0@ != ws[j].0@
}

impl ExternalWorkerPool {
    pub closed spec fn table(&self) -> Map<Seq<char>, Worker> {
        workers_map(self.workers@)
    }

    pub closed spec fn wf(&self) -> bool {
        ids_unique(self.workers@)
    }

    pub closed spec fn spec_address(&self) -> Seq<char> {
        self.address@
    }

    pub closed spec fn is_cancelled(&self) -> bool {
        self.cancelled
    }

    /// A pool bound to a serving address, with an empty table and the
    /// cancellation signal not yet raised.
    pub fn new(address: String) -> (r: Self)
        ensures
            r.spec_address() == address@,
            r.table() == Map::<Seq<char>, Worker>::empty(),
            !r.is_cancelled(),
            r.wf(),
    {
        ExternalWorkerPool { address, cancelled: false, workers: Vec::new() }
    }

    /// Inserts (or replaces) the record for the requested worker id.
    pub fn start_worker(&mut self, request: StartWorkerRequest) -> (r: Worker)
        requires
            old(self).wf(),
        ensures
            final(self).wf(),
            final(self).table() == old(self).table().insert(request.worker_id@, r),
            r.id@ == request.worker_id@,
            r.endpoints.control_endpoint_url == request.control_endpoint_url,
            final(self).spec_address() == old(self).spec_address(),
            final(self).is_cancelled() == old(self).is_cancelled(),
    {
        let url_copy: Option<String> = match &request.control_endpoint_url {
            Some(u) => Some(u.clone()),
            None => None,
        };
        let worker = Worker::new(
            request.worker_id.clone(),
            WorkerEndpoints::new(request.control_endpoint_url),
        );
        let stored = Worker::new(request.worker_id.clone(), WorkerEndpoints::new(url_copy));
        assert(stored == worker);
        let entry = (request.worker_id, stored);
        let _ = table_remove(&mut self.workers, &entry.0);
        let ghost removed = self.workers@;
        self.workers.push(entry);
        proof {
            assert(self.workers@.drop_last() =~= removed);
            lemma_ids_unique_push(removed, self.workers@.last());
            assert(workers_map(self.workers@) == workers_map(removed).insert(
                request.worker_id@,
                worker,
            ));
            assert(workers_map(removed).insert(request.worker_id@, worker) =~= old(
                self,
            ).table().insert(request.worker_id@, worker));
        }
        worker
    }

    /// Signals the requested worker's record to stop and removes it from the
    /// table; a no-op returning `None` when the id is absent.  The returned
    /// record is the removed one with its stop signal raised; delivering the
    /// signal to the remote worker is the transport side's part.
    pub fn stop_worker(&mut self, request: StopWorkerRequest) -> (r: Option<Worker>)
        requires
            old(self).wf(),
        ensures
            final(self).wf(),
            final(self).table() == old(self).table().remove(request.worker_id@),
            final(self).spec_address() == old(self).spec_address(),
            final(self).is_cancelled() == old(self).is_cancelled(),
            match r {
                Some(w) => old(self).table().contains_key(request.worker_id@) && w.id == old(
                    self,
                ).table()[request.worker_id@].id && w.endpoints == old(self).table()[
                    request.worker_id@].endpoints && w.stop_requested,
                None => !old(self).table().contains_key(request.worker_id@),
            },
    {
        match table_remove(&mut self.workers, &request.worker_id) {
            Some(entry) => {
                let mut worker = entry.1;
                worker.stop();
                Some(worker)
            },
            None => None,
        }
    }

    /// Raises the cooperative cancellation signal the serving loop observes.
    /// Signalling twice is safe: the operation is idempotent.  The timeout is
    /// advisory for the caller's graceful-shutdown wait; the signal itself is
    /// immediate.
    pub fn stop(&mut self, timeout_ms: u64)
        ensures
            final(self).is_cancelled(),
            final(self).table() == old(self).table(),
            final(self).spec_address() == old(self).spec_address(),
            final(self).wf() == old(self).wf(),
    {
        let _ = timeout_ms;
        self.cancelled = true;
    }

    /// Whether the cancellation signal has been raised.
    pub fn cancelled(&self) -> (r: bool)
        ensures
            r == self.is_cancelled(),
    {
        self.cancelled
    }

    /// The record for a worker id, if present.
    pub fn get_worker(&self, worker_id: &String) -> (r: Option<&Worker>)
        requires
            self.wf(),
        ensures
            match r {
                Some(w) => self.table().contains_key(worker_id@) && *w == self.table()[worker_id@],
                None => !self.table().contains_key(worker_id@),
            },
    {
        let n = self.workers.len();
        let mut i: usize = 0;
        while i < n
            invariant
                0 <= i <= n,
                n == self.workers@.len(),
                self.wf(),
                forall|j: int| 0 <= j < i ==> self.workers@[j].0@ != worker_id@,
            decreases n - i,
        {
            if self.workers[i].0.eq(worker_id) {
                proof {
                    lemma_workers_map_found(self.workers@, i as int);
                }
                return Some(&self.workers[i].1);
            }
            i = i + 1;
        }
        proof {
            lemma_workers_map_absent(self.workers@, worker_id@);
        }
        None
    }
}

/// Starting a worker and then stopping the same id leaves the table exactly
/// as a stop alone would: the started record is gone, with no residue.
/// Stopping an id that is absent leaves the table unchanged.
pub proof fn lemma_start_then_stop(m: Map<Seq<char>, Worker>, id: Seq<char>, w: Worker)
    ensures
        m.insert(id, w).remove(id) == m.remove(id),
        !m.contains_key(id) ==> m.remove(id) == m,
{
    assert(m.insert(id, w).remove(id) =~= m.remove(id));
    if !m.contains_key(id) {
        assert(m.remove(id) =~= m);
    }
}

proof fn lemma_ids_unique_push(ws: Seq<(String, Worker)>, e: (String, Worker))
    requires
        ids_unique(ws),
        forall|i: int| 0 <= i < ws.len() ==> ws[i].0@ != e.0@,
    ensures
        ids_unique(ws.push(e)),
{
    let wse = ws.push(e);
    assert forall|i: int, j: int| 0 <= i < j < wse.len() implies wse[i].0@ != wse[j].0@ by {
        if j < ws.len() {
            assert(wse[i] == ws[i] && wse[j] == ws[j]);
        } else {
            assert(wse[j] == e && wse[i] == ws[i]);
        }
    }
}

proof fn lemma_workers_map_found(ws: Seq<(String, Worker)>, i: int)
    requires
        ids_unique(ws),
        0 <= i < ws.len(),
    ensures
        workers_map(ws).contains_key(ws[i].0@),
        workers_map(ws)[ws[i].0@] == ws[i].1,
    decreases ws.len(),
{
    if i == ws.len() - 1 {
        assert(ws[i] == ws.last());
    } else {
        assert(ids_unique(ws.drop_last())) by {
            assert(forall|p: int, q: int|
                0 <= p < q < ws.drop_last().len() ==> ws.drop_last()[p] == ws[p]
                    && ws.drop_last()[q] == ws[q]);
        }
        assert(ws.drop_last()[i] == ws[i]);
        lemma_workers_map_found(ws.drop_last(), i);
        assert(ws[i].0@ != ws.last().0@);
    }
}

proof fn lemma_workers_map_absent(ws: Seq<(String, Worker)>, id: Seq<char>)
    requires
        forall|j: int| 0 <= j < ws.len() ==> ws[j].0@ != id,
    ensures
        !workers_map(ws).contains_key(id),
    decreases ws.len(),
{
    if ws.len() > 0 {
        assert(forall|j: int|
            0 <= j < ws.drop_last().len() ==> ws.drop_last()[j] == ws[j]);
        lemma_workers_map_absent(ws.drop_last(), id);
        assert(ws.last() == ws[ws.len() - 1]);
    }
}

/// Removes and returns the entry with the given id, if any; the map view
/// loses that key.
fn table_remove(ws: &mut Vec<(String, Worker)>, id: &String) -> (r: Option<(String, Worker)>)
    requires
        ids_unique(old(ws)@),
    ensures
        ids_unique(final(ws)@),
        workers_map(final(ws)@) == workers_map(old(ws)@).remove(id@),
        forall|i: int| 0 <= i < final(ws)@.len() ==> final(ws)@[i].0@ != id@,
        match r {
            Some(e) => workers_map(old(ws)@).contains_key(id@) && e.0@ == id@ && e.1
                == workers_map(old(ws)@)[id@],
            None => !workers_map(old(ws)@).contains_key(id@),
        },
{
    let n = ws.len();
    let mut i: usize = 0;
    while i < n
        invariant
            0 <= i <= n,
            n == ws@.len(),
            ws@ == old(ws)@,
            ids_unique(ws@),
            forall|j: int| 0 <= j < i ==> ws@[j].0@ != id@,
        decreases n - i,
    {
        if ws[i].0.eq(id) {
            let ghost before = ws@;
            let removed = ws.remove(i);
            proof {
                lemma_workers_map_found(before, i as int);
                lemma_remove_entry(before, i as int);
                assert(workers_map(ws@) == workers_map(before).remove(id@));
                assert forall|k: int| 0 <= k < ws@.len() implies ws@[k].0@ != id@ by {
                    if k < i {
                        assert(ws@[k] == before[k]);
                    } else {
                        assert(ws@[k] == before[k + 1]);
                        assert(before[k + 1].0@ != before[i as int].0@);
                    }
                }
                assert forall|p: int, q: int| 0 <= p < q < ws@.len() implies ws@[p].0@
                    != ws@[q].0@ by {
                    let pp = if p < i { p } else { p + 1 };
                    let qq = if q < i { q } else { q + 1 };
                    assert(ws@[p] == before[pp] && ws@[q] == before[qq]);
                }
            }
            return Some(removed);
        }
        i = i + 1;
    }
    proof {
        lemma_workers_map_absent(ws@, id@);
        assert(workers_map(ws@).remove(id@) =~= workers_map(ws@));
    }
    None
}

/// Removing the only entry with an id removes exactly that key from the map.
proof fn lemma_remove_entry(ws: Seq<(String, Worker)>, i: int)
    requires
        ids_unique(ws),
        0 <= i < ws.len(),
    ensures
        workers_map(ws.remove(i)) == workers_map(ws).remove(ws[i].0@),
    decreases ws.len(),
{
    if i == ws.len() - 1 {
        assert(ws.remove(i) =~= ws.drop_last());
        lemma_map_without_absent_key(ws.drop_last(), ws[i].0@);
    } else {
        assert(ids_unique(ws.drop_last())) by {
            assert(forall|p: int, q: int|
                0 <= p < q < ws.drop_last().len() ==> ws.drop_last()[p] == ws[p]
                    && ws.drop_last()[q] == ws[q]);
        }
        assert(ws.drop_last()[i] == ws[i]);
        lemma_remove_entry(ws.drop_last(), i);
        assert(ws.remove(i) =~= ws.drop_last().remove(i).push(ws.last()));
        assert(ws.remove(i).drop_last() =~= ws.drop_last().remove(i));
        assert(ws.remove(i).last() == ws.last());
        assert(ws[i].0@ != ws.last().0@);
        assert(workers_map(ws.remove(i)) =~= workers_map(ws).remove(ws[i].0@));
    }
}

proof fn lemma_map_without_absent_key(ws: Seq<(String, Worker)>, id: Seq<char>)
    requires
        forall|j: int| 0 <= j < ws.len() ==> ws[j].0@ != id,
    ensures
        workers_map(ws).remove(id) == workers_map(ws),
{
    lemma_workers_map_absent(ws, id);
    assert(workers_map(ws).remove(id) =~= workers_map(ws));
}

} // verus!
