//! Which machine does what.

use std::collections::HashMap;
use vstd::prelude::*;
use crate::float::{FloatModel, FloatOp, Floats, F64};
use crate::optimizer::cost_model::ONE;
use crate::text::same;

verus! {

/// A machine that does work.
#[derive(Debug)]
pub struct WorkerInfo {
    pub id: u32,
    pub host: String,
    pub port: u16,
    pub cpu_cores: usize,
    pub memory_gb: usize,
}

/// Knows the machines, each under its id.
pub struct QueryCoordinator {
    pub workers: HashMap<u32, WorkerInfo>,
    pub coordinator_id: u32,
}

/// The cores of some machines.
pub open spec fn cores_total(workers: Map<u32, WorkerInfo>) -> int
    decreases workers.dom().len(),
{
    if workers.dom().finite() && workers.dom().len() > 0 {
        let id = workers.dom().choose();
        workers[id].cpu_cores + cores_total(workers.remove(id))
    } else {
        0
    }
}

/// The memory of some machines.
pub open spec fn memory_total(workers: Map<u32, WorkerInfo>) -> int
    decreases workers.dom().len(),
{
    if workers.dom().finite() && workers.dom().len() > 0 {
        let id = workers.dom().choose();
        workers[id].memory_gb + memory_total(workers.remove(id))
    } else {
        0
    }
}

/// The kinds of work.
#[derive(Clone, Copy, Debug, PartialEq, Eq, Structural)]
pub enum Task {
    Scan,
    Aggregate,
    Join,
    Other,
}

/// The kind of work that a word names.
pub open spec fn task_named(word: Seq<char>) -> Task {
    if word == "scan"@ {
        Task::Scan
    } else if word == "aggregate"@ {
        Task::Aggregate
    } else if word == "join"@ {
        Task::Join
    } else {
        Task::Other
    }
}

/// How fit a machine is for work: a scan takes memory, an aggregation cores, and a
/// join both.
pub open spec fn fitness(w: WorkerInfo, task: Task) -> int {
    match task {
        Task::Scan => w.memory_gb as int,
        Task::Aggregate => w.cpu_cores as int,
        Task::Join => w.cpu_cores + w.memory_gb / 2,
        Task::Other => 0,
    }
}

/// Whether a machine is among the fittest.
pub open spec fn is_fittest(workers: Map<u32, WorkerInfo>, id: u32, task: Task) -> bool {
    &&& workers.dom().contains(id)
    &&& forall|other: u32| #[trigger]
        workers.dom().contains(other) ==> fitness(workers[other], task) <= fitness(
            workers[id],
            task,
        )
}

/// What sending some bytes from a machine to another costs: a fixed time, and the
/// time of the bytes.
pub open spec fn sending_cost(bytes: usize, fl: FloatModel) -> u64 {
    (fl.gives)(
        FloatOp::Plus,
        ONE,
        (fl.gives)(
            FloatOp::Times,
            (fl.gives)(
                FloatOp::Over,
                (fl.gives)(FloatOp::OfCount, bytes as u64, 0),
                BYTES_A_SECOND,
            ),
            MILLISECONDS_A_SECOND,
        ),
    )
}

/// The bits of one billion.
pub const BYTES_A_SECOND: u64 = 0x41cd_cd65_0000_0000;

/// The bits of one thousand.
pub const MILLISECONDS_A_SECOND: u64 = 0x408f_4000_0000_0000;

/// The totals of some machines are those of any one of them and of the rest.
pub proof fn totals_count_each_once(workers: Map<u32, WorkerInfo>, id: u32)
    requires
        workers.dom().finite(),
        workers.dom().contains(id),
    ensures
        cores_total(workers) == workers[id].cpu_cores + cores_total(workers.remove(id)),
        memory_total(workers) == workers[id].memory_gb + memory_total(workers.remove(id)),
    decreases workers.dom().len(),
{
    let first = workers.dom().choose();
    if first != id {
        let rest = workers.remove(first);
        let others = workers.remove(id);
        totals_count_each_once(rest, id);
        totals_count_each_once(others, first);
        assert(rest.remove(id) =~= others.remove(first));
    }
}

/// A machine that is registered counts once, also where one with its id was there: the
/// totals are its own and those of the machines with other ids.
pub proof fn a_registered_machine_counts_once(workers: Map<u32, WorkerInfo>, w: WorkerInfo)
    requires
        workers.dom().finite(),
    ensures
        ({
            let now = workers.insert(w.id, w);
            let others = workers.remove(w.id);
            &&& now.dom().finite()
            &&& now.dom().len() == others.dom().len() + 1
            &&& workers.dom().contains(w.id) ==> now.dom().len() == workers.dom().len()
            &&& cores_total(now) == w.cpu_cores + cores_total(others)
            &&& memory_total(now) == w.memory_gb + memory_total(others)
        }),
{
    let now = workers.insert(w.id, w);
    totals_count_each_once(now, w.id);
    assert(now.remove(w.id) =~= workers.remove(w.id));
    assert(now.dom() =~= workers.remove(w.id).dom().insert(w.id));
}

proof fn lemma_totals_positive(workers: Map<u32, WorkerInfo>)
    ensures
        0 <= cores_total(workers),
        0 <= memory_total(workers),
    decreases workers.dom().len(),
{
    if workers.dom().finite() && workers.dom().len() > 0 {
        lemma_totals_positive(workers.remove(workers.dom().choose()));
    }
}

impl QueryCoordinator {
    /// The machines can be counted, and each stands under its id.
    pub open spec fn wf(&self) -> bool {
        &&& self.workers@.dom().finite()
        &&& forall|id: u32| #[trigger]
            self.workers@.dom().contains(id) ==> self.workers@[id].id == id
    }

    /// A coordinator without machines.
    pub fn new(coordinator_id: u32) -> (r: Self)
        ensures
            r.wf(),
            r.coordinator_id == coordinator_id,
            r.workers@ == Map::<u32, WorkerInfo>::empty(),
    {
        QueryCoordinator { workers: HashMap::new(), coordinator_id }
    }

    /// Registers a machine, in place of one with its id.
    pub fn register_worker(&mut self, worker: WorkerInfo)
        requires
            old(self).wf(),
        ensures
            final(self).wf(),
            final(self).coordinator_id == old(self).coordinator_id,
            final(self).workers@ == old(self).workers@.insert(worker.id, worker),
    {
        broadcast use vstd::std_specs::hash::group_hash_axioms;

        self.workers.insert(worker.id, worker);
    }

    /// The ids of the machines, in no particular order.
    fn ids(&self) -> (r: Vec<u32>)
        ensures
            r@.no_duplicates(),
            r@.to_set() == self.workers@.dom(),
            self.workers@.dom().finite(),
            r@.len() == self.workers@.dom().len(),
    {
        broadcast use vstd::std_specs::hash::group_hash_axioms;

        let mut out: Vec<u32> = Vec::new();
        for id in it: self.workers.keys()
            invariant
                out@ == it.seq().unref().take(it.index()),
                it.index() == it.seq().len() ==> out@ == it.seq().unref(),
                it.seq().unref().no_duplicates(),
                it.seq().unref().to_set() == self.workers@.dom(),
        {
            let ghost all = it.seq().unref();
            let ghost i = it.index();
            out.push(*id);
            assert(all.take(i + 1) =~= all.take(i).push(all[i]));
        }
        proof {
            out@.unique_seq_to_set();
        }
        out
    }

    fn worker(&self, id: u32) -> (r: &WorkerInfo)
        requires
            self.workers@.dom().contains(id),
        ensures
            *r == self.workers@[id],
    {
        broadcast use vstd::std_specs::hash::group_hash_axioms;

        self.workers.get(&id).unwrap()
    }

    /// The machines, each once, in no particular order.
    pub fn get_workers(&self) -> (r: Vec<&WorkerInfo>)
        requires
            self.wf(),
        ensures
            forall|i: int|
                0 <= i < r@.len() ==> self.workers@.dom().contains((#[trigger] r@[i]).id) && *r@[i]
                    == self.workers@[r@[i].id],
            forall|i: int, j: int|
                0 <= i < j < r@.len() ==> (#[trigger] r@[i]).id != (#[trigger] r@[j]).id,
            r@.len() == self.workers@.dom().len(),
    {
        let ids = self.ids();
        let mut out: Vec<&WorkerInfo> = Vec::new();
        let mut i: usize = 0;
        while i < ids.len()
            invariant
                i <= ids@.len(),
                self.wf(),
                ids@.to_set() == self.workers@.dom(),
                out@.len() == i,
                forall|k: int|
                    0 <= k < i ==> (#[trigger] out@[k]).id == ids@[k] && *out@[k]
                        == self.workers@[ids@[k]],
            decreases ids@.len() - i,
        {
            assert(ids@.to_set().contains(ids@[i as int]));
            out.push(self.worker(ids[i]));
            i = i + 1;
        }
        proof {
            assert forall|k: int| 0 <= k < out@.len() implies self.workers@.dom().contains(
                (#[trigger] out@[k]).id,
            ) by {
                assert(ids@.to_set().contains(ids@[k]));
            }
        }
        out
    }

    /// The cores of all machines.
    pub fn total_cores(&self) -> (r: usize)
        requires
            cores_total(self.workers@) <= usize::MAX,
        ensures
            r == cores_total(self.workers@),
    {
        let ids = self.ids();
        let ghost mut left = self.workers@;
        let mut sum: usize = 0;
        let mut i: usize = 0;
        while i < ids.len()
            invariant
                i <= ids@.len(),
                ids@.no_duplicates(),
                ids@.to_set() == self.workers@.dom(),
                self.workers@.dom().finite(),
                left.dom().finite(),
                left == self.workers@.remove_keys(ids@.take(i as int).to_set()),
                cores_total(self.workers@) <= usize::MAX,
                sum + cores_total(left) == cores_total(self.workers@),
            decreases ids@.len() - i,
        {
            let ghost id = ids@[i as int];
            proof {
                lemma_one_less(self.workers@, ids@, i as int);
                totals_count_each_once(left, id);
                lemma_totals_positive(left.remove(id));
                left = left.remove(id);
            }
            sum = sum + self.worker(ids[i]).cpu_cores;
            i = i + 1;
        }
        proof {
            assert(ids@.take(i as int) =~= ids@);
            assert(left.dom() =~= Set::<u32>::empty());
        }
        sum
    }

    /// The memory of all machines.
    pub fn total_memory_gb(&self) -> (r: usize)
        requires
            memory_total(self.workers@) <= usize::MAX,
        ensures
            r == memory_total(self.workers@),
    {
        let ids = self.ids();
        let ghost mut left = self.workers@;
        let mut sum: usize = 0;
        let mut i: usize = 0;
        while i < ids.len()
            invariant
                i <= ids@.len(),
                ids@.no_duplicates(),
                ids@.to_set() == self.workers@.dom(),
                self.workers@.dom().finite(),
                left.dom().finite(),
                left == self.workers@.remove_keys(ids@.take(i as int).to_set()),
                memory_total(self.workers@) <= usize::MAX,
                sum + memory_total(left) == memory_total(self.workers@),
            decreases ids@.len() - i,
        {
            let ghost id = ids@[i as int];
            proof {
                lemma_one_less(self.workers@, ids@, i as int);
                totals_count_each_once(left, id);
                lemma_totals_positive(left.remove(id));
                left = left.remove(id);
            }
            sum = sum + self.worker(ids[i]).memory_gb;
            i = i + 1;
        }
        proof {
            assert(ids@.take(i as int) =~= ids@);
            assert(left.dom() =~= Set::<u32>::empty());
        }
        sum
    }

    /// What sending some bytes from a machine to another costs; it is the same
    /// between all.
    pub fn estimate_comm_cost<F: Floats>(&self, _from: u32, _to: u32, bytes: usize, floats: &F) -> (r:
        F64)
        requires
            floats.sound(),
        ensures
            r.bits == sending_cost(bytes, floats.model()),
    {
        let n = floats.apply(FloatOp::OfCount, bytes as u64, 0);
        let seconds = floats.apply(FloatOp::Over, n, BYTES_A_SECOND);
        let time = floats.apply(FloatOp::Times, seconds, MILLISECONDS_A_SECOND);
        F64 { bits: floats.apply(FloatOp::Plus, ONE, time) }
    }

    fn task_of(word: &str) -> (r: Task)
        ensures
            r == task_named(word@),
    {
        if same(word, "scan") {
            Task::Scan
        } else if same(word, "aggregate") {
            Task::Aggregate
        } else if same(word, "join") {
            Task::Join
        } else {
            Task::Other
        }
    }

    fn fitness_of(w: &WorkerInfo, task: Task) -> (r: usize)
        requires
            fitness(*w, task) <= usize::MAX,
        ensures
            r == fitness(*w, task),
    {
        match task {
            Task::Scan => w.memory_gb,
            Task::Aggregate => w.cpu_cores,
            Task::Join => w.cpu_cores + w.memory_gb / 2,
            Task::Other => 0,
        }
    }

    /// A machine for some work: one of the fittest; for work of another kind, any. The
    /// size of the work does not matter.
    pub fn select_worker_for_task(&self, task_type: &str, _data_size_mb: usize) -> (r: Option<u32>)
        requires
            forall|id: u32| #[trigger]
                self.workers@.dom().contains(id) ==> fitness(
                    self.workers@[id],
                    task_named(task_type@),
                ) <= usize::MAX,
        ensures
            match r {
                Some(id) => is_fittest(self.workers@, id, task_named(task_type@)),
                None => self.workers@ == Map::<u32, WorkerInfo>::empty(),
            },
    {
        let task = Self::task_of(task_type);
        let ids = self.ids();
        let ghost all = self.workers@;
        if ids.len() == 0 {
            assert(ids@.to_set() =~= Set::<u32>::empty());
            assert(all =~= Map::<u32, WorkerInfo>::empty());
            return None;
        }
        let mut best: usize = 0;
        let mut i: usize = 1;
        while i < ids.len()
            invariant
                best < i <= ids@.len(),
                all == self.workers@,
                ids@.to_set() == all.dom(),
                forall|id: u32| #[trigger]
                    all.dom().contains(id) ==> fitness(all[id], task) <= usize::MAX,
                forall|k: int|
                    0 <= k < i ==> fitness(all[#[trigger] ids@[k]], task) <= fitness(
                        all[ids@[best as int]],
                        task,
                    ),
            decreases ids@.len() - i,
        {
            assert(ids@.to_set().contains(ids@[i as int]));
            assert(ids@.to_set().contains(ids@[best as int]));
            if Self::fitness_of(self.worker(ids[i]), task) >= Self::fitness_of(
                self.worker(ids[best]),
                task,
            ) {
                best = i;
            }
            i = i + 1;
        }
        proof {
            assert(ids@.to_set().contains(ids@[best as int]));
            assert forall|other: u32| #[trigger] all.dom().contains(other) implies fitness(
                all[other],
                task,
            ) <= fitness(all[ids@[best as int]], task) by {
                assert(ids@.to_set().contains(other));
                let k = choose|k: int| 0 <= k < ids@.len() && ids@[k] == other;
                assert(ids@[k] == other);
            }
        }
        Some(ids[best])
    }
}

proof fn lemma_one_less(workers: Map<u32, WorkerInfo>, ids: Seq<u32>, i: int)
    requires
        0 <= i < ids.len(),
        ids.no_duplicates(),
        ids.to_set() == workers.dom(),
    ensures
        workers.dom().contains(ids[i]),
        workers.remove_keys(ids.take(i).to_set()).dom().contains(ids[i]),
        workers.remove_keys(ids.take(i).to_set()).remove(ids[i]) == workers.remove_keys(
            ids.take(i + 1).to_set(),
        ),
{
    let id = ids[i];
    assert(ids.to_set().contains(id));
    if ids.take(i).to_set().contains(id) {
        let k = choose|k: int| 0 <= k < ids.take(i).len() && ids.take(i)[k] == id;
        assert(ids[k] == ids[i]);
    }
    assert(ids.take(i + 1) =~= ids.take(i).push(id));
    assert(ids.take(i + 1).to_set() =~= ids.take(i).to_set().insert(id)) by {
        assert forall|x: u32| ids.take(i + 1).to_set().contains(x) <==> ids.take(i).to_set().insert(
            id,
        ).contains(x) by {
            if ids.take(i).contains(x) {
                let k = choose|k: int| 0 <= k < i && ids.take(i)[k] == x;
                assert(ids.take(i + 1)[k] == x);
            }
            let more = ids.take(i + 1);
            if more.contains(x) && x != id {
                let k = choose|k: int| 0 <= k < more.len() && more[k] == x;
                assert(ids.take(i)[k] == x);
            }
            assert(ids.take(i + 1)[i] == id);
        }
    }
    assert(workers.remove_keys(ids.take(i).to_set()).remove(id) =~= workers.remove_keys(
        ids.take(i + 1).to_set(),
    ));
}

} // verus!
