//! Where rows and tasks go.

use vstd::prelude::*;
use crate::distributed::coordinator::{
    is_fittest, sending_cost, task_named, Task, WorkerInfo, BYTES_A_SECOND,
};
use crate::distributed::partitioner::{
    bytes_total, partition_of, range_of, rows_total, whole_part, Partition, PartitionStrategy,
};
use crate::float::{is_at_most, is_less, FloatModel, FloatOp};
use crate::optimizer::cost_model::ONE;

verus! {

/// A key lies in the range of a partition, the start belonging to it and the end not.
pub open spec fn lies_in(p: Partition, key: u64) -> bool {
    is_at_most(p.start_key.bits, key) && is_less(key, p.end_key.bits)
}

/// A key goes to the first partition that it lies in, and to number zero where it lies in
/// none.
pub proof fn a_key_goes_to_its_range(
    partitions: Seq<Partition>,
    num_partitions: usize,
    key: u64,
    k: int,
    fl: FloatModel,
)
    requires
        0 <= k <= partitions.len(),
        forall|i: int| 0 <= i < k ==> !lies_in(#[trigger] partitions[i], key),
        k < partitions.len() ==> lies_in(partitions[k], key),
    ensures
        partition_of(PartitionStrategy::Range, num_partitions, partitions, key, fl) == if k
            < partitions.len() {
            partitions[k].id
        } else {
            0
        },
{
    lemma_range(partitions, key, 0, k);
}

proof fn lemma_range(partitions: Seq<Partition>, key: u64, i: int, k: int)
    requires
        0 <= i <= k <= partitions.len(),
        forall|j: int| 0 <= j < k ==> !lies_in(#[trigger] partitions[j], key),
        k < partitions.len() ==> lies_in(partitions[k], key),
    ensures
        range_of(partitions, key, i) == if k < partitions.len() {
            partitions[k].id
        } else {
            0
        },
    decreases k - i,
{
    if i < k {
        assert(!lies_in(partitions[i], key));
        lemma_range(partitions, key, i + 1, k);
    }
}

/// In turn, keys with consecutive whole parts go to consecutive partitions, and then to the
/// first again.
pub proof fn keys_go_round_in_turn(
    num_partitions: usize,
    partitions: Seq<Partition>,
    a: u64,
    b: u64,
    fl: FloatModel,
)
    requires
        0 < num_partitions <= u32::MAX,
        whole_part(b, fl) == whole_part(a, fl) + 1,
    ensures
        ({
            let at = |key: u64|
                partition_of(PartitionStrategy::RoundRobin, num_partitions, partitions, key, fl);
            at(b) == if at(a) + 1 == num_partitions {
                0int
            } else {
                at(a) + 1
            }
        }),
{
    let n = num_partitions as int;
    let w = whole_part(a, fl) as int;
    assert((w + 1) % n == if w % n + 1 == n { 0int } else { w % n + 1 }) by (nonlinear_arith)
        requires
            n > 0,
            w >= 0,
    {
        let q = w / n;
        let r = w % n;
        assert(w == q * n + r && 0 <= r < n);
        if r + 1 == n {
            assert(w + 1 == (q + 1) * n);
            assert((w + 1) % n == 0) by (nonlinear_arith)
                requires
                    w + 1 == (q + 1) * n,
                    n > 0,
            ;
        } else {
            assert((w + 1) % n == r + 1) by (nonlinear_arith)
                requires
                    w + 1 == q * n + (r + 1),
                    0 <= r + 1 < n,
                    n > 0,
            ;
        }
    }
}

/// By hash, a key goes to the remainder of its lower half.
pub proof fn a_hash_takes_the_remainder(
    num_partitions: usize,
    partitions: Seq<Partition>,
    key: u64,
    fl: FloatModel,
)
    requires
        0 < num_partitions <= u32::MAX,
        key <= u32::MAX,
    ensures
        partition_of(PartitionStrategy::Hash, num_partitions, partitions, key, fl) == key as int
            % num_partitions as int,
{
}

/// A partition more adds its rows and its bytes to the totals.
pub proof fn totals_count_every_partition(partitions: Seq<Partition>, p: Partition)
    ensures
        ({
            let n = partitions.len() as int;
            let more = partitions.push(p);
            &&& rows_total(more, n + 1) == rows_total(partitions, n) + p.row_count
            &&& bytes_total(more, n + 1) == bytes_total(partitions, n) + p.size_bytes
            &&& rows_total(Seq::empty(), 0) == 0
            &&& bytes_total(Seq::empty(), 0) == 0
        }),
{
    lemma_totals(partitions, p, partitions.len() as int);
    assert(partitions.push(p)[partitions.len() as int] == p);
}

proof fn lemma_totals(partitions: Seq<Partition>, p: Partition, n: int)
    requires
        0 <= n <= partitions.len(),
    ensures
        rows_total(partitions.push(p), n) == rows_total(partitions, n),
        bytes_total(partitions.push(p), n) == bytes_total(partitions, n),
    decreases n,
{
    if n > 0 {
        lemma_totals(partitions, p, n - 1);
        assert(partitions.push(p)[n - 1] == partitions[n - 1]);
    }
}

/// A scan goes to a machine with the most memory, an aggregation to one with the most
/// cores, and a join to one with the most of both, the memory counting half.
pub proof fn tasks_go_to_the_fittest(
    workers: Map<u32, WorkerInfo>,
    id: u32,
    other: u32,
)
    requires
        workers.dom().contains(other),
    ensures
        is_fittest(workers, id, Task::Scan) ==> workers[other].memory_gb <= workers[id].memory_gb,
        is_fittest(workers, id, Task::Aggregate) ==> workers[other].cpu_cores
            <= workers[id].cpu_cores,
        is_fittest(workers, id, Task::Join) ==> workers[other].cpu_cores + workers[other].memory_gb
            / 2 <= workers[id].cpu_cores + workers[id].memory_gb / 2,
{
}

/// Each task has one name.
pub proof fn tasks_are_named(word: Seq<char>)
    ensures
        (task_named(word) == Task::Scan) <==> word == seq!['s', 'c', 'a', 'n'],
        (task_named(word) == Task::Join) <==> word == seq!['j', 'o', 'i', 'n'],
        (task_named(word) == Task::Aggregate) <==> word == seq![
            'a', 'g', 'g', 'r', 'e', 'g', 'a', 't', 'e',
        ],
{
    reveal_strlit("scan");
    reveal_strlit("join");
    reveal_strlit("aggregate");
    let scan = seq!['s', 'c', 'a', 'n'];
    let join = seq!['j', 'o', 'i', 'n'];
    let aggregate = seq!['a', 'g', 'g', 'r', 'e', 'g', 'a', 't', 'e'];
    assert("scan"@ =~= scan);
    assert("join"@ =~= join);
    assert("aggregate"@ =~= aggregate);
    assert(scan[0] == 's' && join[0] == 'j');
}

/// Sending nothing costs the time of one message, and what is sent adds the time that its
/// bytes take.
pub proof fn sending_takes_time_for_its_bytes(bytes: usize, fl: FloatModel)
    ensures
        ({
            let seconds = (fl.gives)(
                FloatOp::Over,
                (fl.gives)(FloatOp::OfCount, bytes as u64, 0),
                BYTES_A_SECOND,
            );
            let time = (fl.gives)(FloatOp::Times, seconds, 0x408f_4000_0000_0000);
            &&& sending_cost(bytes, fl) == (fl.gives)(FloatOp::Plus, ONE, time)
            &&& time == 0 && (fl.gives)(FloatOp::Plus, ONE, 0) == ONE ==> sending_cost(bytes, fl)
                == ONE
            &&& BYTES_A_SECOND == 0x41cd_cd65_0000_0000
        }),
{
}

} // verus!
