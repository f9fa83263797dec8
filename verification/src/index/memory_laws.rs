//! What indexes take in memory.

use vstd::layout::size_of;
use vstd::prelude::*;
use crate::float::F64;
use crate::index::btree::{BTree, Node};
use crate::index::memory::{
    buffered_bytes, index_bytes, staged_bytes, tally, tally_from, total_of, tree_bytes, TreeRoom,
};
use crate::index::models::LinearModel;
use crate::index::pgm::{PGMIndex, PGMSegment};
use crate::index::rmi::{RMIIndex, RMIStage};

verus! {

proof fn lemma_one_more(n: int, each: int)
    ensures
        (n + 1) * each == n * each + each,
{
    assert((n + 1) * each == n * each + each) by (nonlinear_arith);
}

proof fn lemma_room(n: int, each: int)
    requires
        n >= 0,
        each >= 0,
    ensures
        n * each >= 0,
{
    assert(n * each >= 0) by (nonlinear_arith)
        requires
            n >= 0,
            each >= 0,
    ;
}

/// As long as the bytes can be counted, room for one more segment, key or waiting key takes
/// the bytes of one; without room for any the index takes its own.
pub proof fn learned_indexes_take_what_they_have_room_for(
    segments: usize,
    keys: usize,
    base: usize,
    waiting: usize,
)
    ensures
        segments < usize::MAX && index_bytes((segments + 1) as usize, keys) < usize::MAX
            ==> index_bytes((segments + 1) as usize, keys) == index_bytes(segments, keys)
            + size_of::<PGMSegment>(),
        keys < usize::MAX && index_bytes(segments, (keys + 1) as usize) < usize::MAX
            ==> index_bytes(segments, (keys + 1) as usize) == index_bytes(segments, keys)
            + size_of::<F64>(),
        size_of::<PGMIndex>() <= usize::MAX ==> index_bytes(0, 0) == size_of::<PGMIndex>(),
        waiting < usize::MAX && buffered_bytes(base, (waiting + 1) as usize) < usize::MAX
            ==> buffered_bytes(base, (waiting + 1) as usize) == buffered_bytes(base, waiting)
            + size_of::<F64>(),
        base < usize::MAX && buffered_bytes((base + 1) as usize, waiting) < usize::MAX
            ==> buffered_bytes((base + 1) as usize, waiting) == buffered_bytes(base, waiting) + 1,
        buffered_bytes(0, 0) < usize::MAX ==> buffered_bytes(0, 0) == size_of::<usize>()
            + size_of::<usize>(),
{
    lemma_one_more(segments as int, size_of::<PGMSegment>() as int);
    lemma_one_more(keys as int, size_of::<F64>() as int);
    lemma_one_more(waiting as int, size_of::<F64>() as int);
    lemma_room(segments as int, size_of::<PGMSegment>() as int);
    lemma_room(keys as int, size_of::<F64>() as int);
    lemma_room(waiting as int, size_of::<F64>() as int);
    assert(0 * size_of::<PGMSegment>() == 0);
    assert(0 * size_of::<F64>() == 0);
}

proof fn lemma_total_of(v: Seq<usize>, n: int, last: usize)
    requires
        0 <= n <= v.len(),
    ensures
        total_of(v.push(last), n) == total_of(v, n),
        total_of(v, n) >= 0,
    decreases n,
{
    if n > 0 {
        lemma_total_of(v, n - 1, last);
    }
}

/// As long as the bytes can be counted, room for one more stage, model, key or position
/// takes the bytes of one; without room for any an index of stages takes its own.
pub proof fn staged_indexes_take_what_they_have_room_for(
    stages: usize,
    models: Seq<usize>,
    last: usize,
    keys: usize,
    positions: usize,
)
    ensures
        stages < usize::MAX && staged_bytes((stages + 1) as usize, models, keys, positions)
            < usize::MAX ==> staged_bytes((stages + 1) as usize, models, keys, positions)
            == staged_bytes(stages, models, keys, positions) + size_of::<RMIStage>(),
        keys < usize::MAX && staged_bytes(stages, models, (keys + 1) as usize, positions)
            < usize::MAX ==> staged_bytes(stages, models, (keys + 1) as usize, positions)
            == staged_bytes(stages, models, keys, positions) + size_of::<F64>(),
        positions < usize::MAX && staged_bytes(stages, models, keys, (positions + 1) as usize)
            < usize::MAX ==> staged_bytes(stages, models, keys, (positions + 1) as usize)
            == staged_bytes(stages, models, keys, positions) + size_of::<usize>(),
        total_of(models.push(last), models.len() as int + 1) == total_of(
            models,
            models.len() as int,
        ) + last,
        total_of(models, models.len() as int) + 1 <= usize::MAX && staged_bytes(
            stages,
            models.push(1),
            keys,
            positions,
        ) < usize::MAX ==> staged_bytes(stages, models.push(1), keys, positions) == staged_bytes(
            stages,
            models,
            keys,
            positions,
        ) + size_of::<LinearModel>(),
        size_of::<RMIIndex>() <= usize::MAX ==> staged_bytes(0, Seq::empty(), 0, 0) == size_of::<
            RMIIndex,
        >(),
{
    let n = models.len() as int;
    lemma_total_of(models, n, last);
    lemma_total_of(models, n, 1);
    let all = total_of(models, n);
    lemma_one_more(stages as int, size_of::<RMIStage>() as int);
    lemma_one_more(keys as int, size_of::<F64>() as int);
    lemma_one_more(positions as int, size_of::<usize>() as int);
    lemma_one_more(all, size_of::<LinearModel>() as int);
    lemma_room(stages as int, size_of::<RMIStage>() as int);
    lemma_room(keys as int, size_of::<F64>() as int);
    lemma_room(positions as int, size_of::<usize>() as int);
    lemma_room(all, size_of::<LinearModel>() as int);
    lemma_room(usize::MAX as int, size_of::<LinearModel>() as int);
    assert(total_of(models.push(1), n + 1) == all + 1);
    assert(models.push(1).len() == n + 1);
    assert(total_of(Seq::<usize>::empty(), 0) == 0);
    assert(Seq::<usize>::empty().len() == 0);
    assert(0 * size_of::<RMIStage>() == 0);
    assert(0 * size_of::<LinearModel>() == 0);
    assert(0 * size_of::<F64>() == 0);
    assert(0 * size_of::<usize>() == 0);
}

/// Some rooms with one more of each kind that is asked for.
pub open spec fn roomier(
    r: TreeRoom,
    nodes: int,
    keys: int,
    values: int,
    children: int,
) -> TreeRoom {
    TreeRoom {
        nodes: (r.nodes + nodes) as usize,
        keys: (r.keys + keys) as usize,
        values: (r.values + values) as usize,
        children: (r.children + children) as usize,
    }
}

/// As long as the bytes can be counted, one more node, and room for one more key, value or
/// child, takes the bytes of one; without any the tree takes its own.
pub proof fn trees_take_what_they_have_room_for(r: TreeRoom)
    ensures
        r.nodes < usize::MAX && tree_bytes(roomier(r, 1, 0, 0, 0)) < usize::MAX ==> tree_bytes(
            roomier(r, 1, 0, 0, 0),
        ) == tree_bytes(r) + size_of::<Node>(),
        r.keys < usize::MAX && tree_bytes(roomier(r, 0, 1, 0, 0)) < usize::MAX ==> tree_bytes(
            roomier(r, 0, 1, 0, 0),
        ) == tree_bytes(r) + size_of::<F64>(),
        r.values < usize::MAX && tree_bytes(roomier(r, 0, 0, 1, 0)) < usize::MAX ==> tree_bytes(
            roomier(r, 0, 0, 1, 0),
        ) == tree_bytes(r) + size_of::<usize>(),
        r.children < usize::MAX && tree_bytes(roomier(r, 0, 0, 0, 1)) < usize::MAX ==> tree_bytes(
            roomier(r, 0, 0, 0, 1),
        ) == tree_bytes(r) + size_of::<Box<Node>>(),
        size_of::<BTree>() <= usize::MAX ==> tree_bytes(
            TreeRoom { nodes: 0, keys: 0, values: 0, children: 0 },
        ) == size_of::<BTree>(),
{
    lemma_one_more(r.nodes as int, size_of::<Node>() as int);
    lemma_one_more(r.keys as int, size_of::<F64>() as int);
    lemma_one_more(r.values as int, size_of::<usize>() as int);
    lemma_one_more(r.children as int, size_of::<Box<Node>>() as int);
    lemma_room(r.nodes as int, size_of::<Node>() as int);
    lemma_room(r.keys as int, size_of::<F64>() as int);
    lemma_room(r.values as int, size_of::<usize>() as int);
    lemma_room(r.children as int, size_of::<Box<Node>>() as int);
    assert(0 * size_of::<Node>() == 0);
    assert(0 * size_of::<F64>() == 0);
    assert(0 * size_of::<usize>() == 0);
    assert(0 * size_of::<Box<Node>>() == 0);
}

proof fn lemma_tally_from(nodes: Seq<Box<Node>>, i: int)
    requires
        0 <= i <= nodes.len(),
    ensures
        tally_from(nodes, i).nodes == tally_from(nodes, i).children + (nodes.len() - i),
    decreases nodes, nodes.len() - i,
{
    if i < nodes.len() {
        every_node_but_the_root_is_a_child(*nodes[i]);
        lemma_tally_from(nodes, i + 1);
    }
}

/// Every node of a tree but its root is the child of one.
pub proof fn every_node_but_the_root_is_a_child(n: Node)
    ensures
        tally(n).nodes == tally(n).children + 1,
    decreases n, 0int,
{
    match n {
        Node::Leaf { .. } => {},
        Node::Internal { keys, children } => {
            lemma_tally_from(children@, 0);
        },
    }
}

} // verus!
