//! Which partition a key belongs to.

use vstd::prelude::*;
use crate::float::{is_at_most, is_less, FloatModel, FloatOp, Floats, F64};

verus! {

/// How keys are spread over partitions.
#[derive(Clone, Copy, Debug, PartialEq, Eq, Structural)]
pub enum PartitionStrategy {
    /// By the low bits of the key.
    Hash,
    /// By the range that the key lies in.
    Range,
    /// By the whole part of the key, in turn.
    RoundRobin,
    /// By the whole part of a multiple of the key, in turn.
    Random,
}

/// A partition: its keys lie from `start_key` on and below `end_key`.
#[derive(Clone, Copy, Debug, PartialEq, Eq, Structural)]
pub struct Partition {
    pub id: u32,
    pub start_key: F64,
    pub end_key: F64,
    pub row_count: usize,
    pub size_bytes: usize,
}

/// Spreads keys over partitions.
pub struct DataPartitioner {
    pub num_partitions: usize,
    pub strategy: PartitionStrategy,
    pub partitions: Vec<Partition>,
}

/// The bits of the factor that spreads keys at random.
pub const SPREAD: u64 = 0x3ff5_645a_1cac_0831;

/// The first of the partitions from the `i`-th on whose range a key lies in, or
/// zero.
pub open spec fn range_of(partitions: Seq<Partition>, key: u64, i: int) -> u32
    decreases partitions.len() - i,
{
    if 0 <= i < partitions.len() {
        if is_at_most(partitions[i].start_key.bits, key) && is_less(
            key,
            partitions[i].end_key.bits,
        ) {
            partitions[i].id
        } else {
            range_of(partitions, key, i + 1)
        }
    } else {
        0
    }
}

/// The whole part of a float, at most the largest 32-bit number.
pub open spec fn whole_part(x: u64, fl: FloatModel) -> u32 {
    let n = (fl.gives)(FloatOp::ToCount, x, 0);
    if n > u32::MAX {
        u32::MAX
    } else {
        n as u32
    }
}

/// The partition of a key.
pub open spec fn partition_of(
    strategy: PartitionStrategy,
    num_partitions: usize,
    partitions: Seq<Partition>,
    key: u64,
    fl: FloatModel,
) -> u32 {
    match strategy {
        PartitionStrategy::Hash => (key as u32) % (num_partitions as u32),
        PartitionStrategy::Range => range_of(partitions, key, 0),
        PartitionStrategy::RoundRobin => whole_part(key, fl) % (num_partitions as u32),
        PartitionStrategy::Random => whole_part((fl.gives)(FloatOp::Times, key, SPREAD), fl) % (
        num_partitions as u32),
    }
}

/// The bytes of the first `n` partitions.
pub open spec fn bytes_total(partitions: Seq<Partition>, n: int) -> int
    decreases n,
{
    if n <= 0 || n > partitions.len() {
        0
    } else {
        bytes_total(partitions, n - 1) + partitions[n - 1].size_bytes
    }
}

/// The rows of the first `n` partitions.
pub open spec fn rows_total(partitions: Seq<Partition>, n: int) -> int
    decreases n,
{
    if n <= 0 || n > partitions.len() {
        0
    } else {
        rows_total(partitions, n - 1) + partitions[n - 1].row_count
    }
}

proof fn lemma_totals_grow(partitions: Seq<Partition>, m: int, n: int)
    requires
        0 <= m <= n <= partitions.len(),
    ensures
        0 <= bytes_total(partitions, m) <= bytes_total(partitions, n),
        0 <= rows_total(partitions, m) <= rows_total(partitions, n),
    decreases n,
{
    if m < n {
        lemma_totals_grow(partitions, m, n - 1);
    } else if n > 0 {
        lemma_totals_grow(partitions, m - 1, n - 1);
    }
}

fn low_bits(n: u64) -> (r: u32)
    ensures
        r == n as u32,
{
    #[verifier::truncate]
    (n as u32)
}

fn low_count(n: usize) -> (r: u32)
    ensures
        r == n as u32,
{
    #[verifier::truncate]
    (n as u32)
}

fn whole<F: Floats>(x: u64, floats: &F) -> (r: u32)
    requires
        floats.sound(),
    ensures
        r == whole_part(x, floats.model()),
{
    let n = floats.apply(FloatOp::ToCount, x, 0);
    if n > 0xffff_ffff {
        0xffff_ffff
    } else {
        n as u32
    }
}

impl DataPartitioner {
    /// A partitioner without ranges.
    pub fn new(num_partitions: usize, strategy: PartitionStrategy) -> (r: Self)
        ensures
            r.num_partitions == num_partitions,
            r.strategy == strategy,
            r.partitions@ == Seq::<Partition>::empty(),
    {
        DataPartitioner { num_partitions, strategy, partitions: Vec::new() }
    }

    /// The partition of a key.
    pub fn get_partition<F: Floats>(&self, key: F64, floats: &F) -> (r: u32)
        requires
            floats.sound(),
            self.strategy != PartitionStrategy::Range ==> self.num_partitions as u32 != 0,
        ensures
            r == partition_of(
                self.strategy,
                self.num_partitions,
                self.partitions@,
                key.bits,
                floats.model(),
            ),
    {
        match self.strategy {
            PartitionStrategy::Hash => low_bits(key.bits) % low_count(self.num_partitions),
            PartitionStrategy::Range => {
                let mut i: usize = 0;
                while i < self.partitions.len()
                    invariant
                        i <= self.partitions@.len(),
                        self.strategy == PartitionStrategy::Range,
                        range_of(self.partitions@, key.bits, 0) == range_of(
                            self.partitions@,
                            key.bits,
                            i as int,
                        ),
                    decreases self.partitions@.len() - i,
                {
                    let p = self.partitions[i];
                    if p.start_key.at_most(key) && key.less(p.end_key) {
                        return p.id;
                    }
                    i = i + 1;
                }
                0
            },
            PartitionStrategy::RoundRobin => whole(key.bits, floats) % low_count(
                self.num_partitions,
            ),
            PartitionStrategy::Random => {
                let spread = floats.apply(FloatOp::Times, key.bits, SPREAD);
                whole(spread, floats) % low_count(self.num_partitions)
            },
        }
    }

    /// Adds a partition.
    pub fn add_partition(&mut self, partition: Partition)
        ensures
            final(self).num_partitions == old(self).num_partitions,
            final(self).strategy == old(self).strategy,
            final(self).partitions@ == old(self).partitions@.push(partition),
    {
        self.partitions.push(partition);
    }

    /// The bytes of all partitions.
    pub fn total_size_bytes(&self) -> (r: usize)
        requires
            bytes_total(self.partitions@, self.partitions@.len() as int) <= usize::MAX,
        ensures
            r == bytes_total(self.partitions@, self.partitions@.len() as int),
    {
        let ghost all = self.partitions@;
        let mut sum: usize = 0;
        let mut i: usize = 0;
        while i < self.partitions.len()
            invariant
                i <= self.partitions@.len(),
                all == self.partitions@,
                bytes_total(all, all.len() as int) <= usize::MAX,
                sum == bytes_total(all, i as int),
            decreases self.partitions@.len() - i,
        {
            proof {
                lemma_totals_grow(all, i + 1, all.len() as int);
            }
            sum = sum + self.partitions[i].size_bytes;
            i = i + 1;
        }
        sum
    }

    /// The rows of all partitions.
    pub fn total_rows(&self) -> (r: usize)
        requires
            rows_total(self.partitions@, self.partitions@.len() as int) <= usize::MAX,
        ensures
            r == rows_total(self.partitions@, self.partitions@.len() as int),
    {
        let ghost all = self.partitions@;
        let mut sum: usize = 0;
        let mut i: usize = 0;
        while i < self.partitions.len()
            invariant
                i <= self.partitions@.len(),
                all == self.partitions@,
                rows_total(all, all.len() as int) <= usize::MAX,
                sum == rows_total(all, i as int),
            decreases self.partitions@.len() - i,
        {
            proof {
                lemma_totals_grow(all, i + 1, all.len() as int);
            }
            sum = sum + self.partitions[i].row_count;
            i = i + 1;
        }
        sum
    }
}

/// Every key gets a partition that exists, where keys are not spread by ranges.
pub proof fn partitions_exist(
    strategy: PartitionStrategy,
    num_partitions: usize,
    partitions: Seq<Partition>,
    key: u64,
    fl: FloatModel,
)
    requires
        strategy != PartitionStrategy::Range,
        0 < num_partitions <= u32::MAX,
    ensures
        partition_of(strategy, num_partitions, partitions, key, fl) < num_partitions,
{
}

} // verus!
