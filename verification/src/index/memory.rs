//! How much memory the indexes take.
//!
//! A vector takes as much as it has room for, which is at least what it holds; how
//! much more is up to the allocator. What is computed from the rooms is exact, but
//! for sums beyond the largest size, which count as that.

use vstd::layout::size_of;
use vstd::prelude::*;
use crate::float::F64;
use crate::index::btree::{BTree, Node};
use crate::index::dynamic_pgm::DynamicPGMIndex;
use crate::index::models::LinearModel;
use crate::index::pgm::{PGMIndex, PGMSegment};
use crate::index::rmi::{RMIIndex, RMIStage};

verus! {

/// How many elements a vector has room for. Calls `Vec::capacity`, which is never
/// less than the length. By how much it is more is left unsaid: it rests with the
/// allocator.
#[verifier::external_body]
pub(crate) fn room<T>(v: &Vec<T>) -> (r: usize)
    ensures
        r >= v@.len(),
{
    v.capacity()
}

/// A number, or the largest size where that is less.
pub open spec fn capped(n: int) -> usize {
    if n > usize::MAX {
        usize::MAX
    } else {
        n as usize
    }
}

fn product(count: usize, each: usize) -> (r: usize)
    ensures
        r == capped(count * each),
{
    assert(count * each >= 0) by (nonlinear_arith);
    match count.checked_mul(each) {
        Some(n) => n,
        None => usize::MAX,
    }
}

fn sum(a: usize, b: usize) -> (r: usize)
    ensures
        r == capped(a + b),
{
    match a.checked_add(b) {
        Some(n) => n,
        None => usize::MAX,
    }
}

// ---- learned indexes --------------------------------------------------------------------

/// The bytes of an index with room for some segments and some keys.
pub open spec fn index_bytes(segment_room: usize, key_room: usize) -> usize {
    capped(
        size_of::<PGMIndex>() + segment_room * size_of::<PGMSegment>() + key_room * size_of::<
            F64,
        >(),
    )
}

/// The bytes of an index with room for some segments and some keys.
pub fn bytes_of_index(segment_room: usize, key_room: usize) -> (r: usize)
    ensures
        r == index_bytes(segment_room, key_room),
{
    assert(segment_room * size_of::<PGMSegment>() >= 0) by (nonlinear_arith)
        requires
            size_of::<PGMSegment>() >= 0,
    ;
    assert(key_room * size_of::<F64>() >= 0) by (nonlinear_arith)
        requires
            size_of::<F64>() >= 0,
    ;
    sum(
        sum(
            std::mem::size_of::<PGMIndex>(),
            product(segment_room, std::mem::size_of::<PGMSegment>()),
        ),
        product(key_room, std::mem::size_of::<F64>()),
    )
}

impl PGMIndex {
    /// The memory that the index takes.
    pub fn heap_bytes(&self) -> (r: usize)
        ensures
            exists|segment_room: usize, key_room: usize|
                segment_room >= self.segments@.len() && key_room >= self.keys@.len() && r
                    == #[trigger] index_bytes(segment_room, key_room),
    {
        bytes_of_index(room(&self.segments), room(&self.keys))
    }
}

/// The bytes of an index with a buffer: those of its base, two numbers, and the room
/// for waiting keys.
pub open spec fn buffered_bytes(base: usize, buffer_room: usize) -> usize {
    capped(base + 2 * size_of::<usize>() + buffer_room * size_of::<F64>())
}

/// The bytes of an index with a buffer.
pub fn bytes_of_buffered(base: usize, buffer_room: usize) -> (r: usize)
    ensures
        r == buffered_bytes(base, buffer_room),
{
    assert(buffer_room * size_of::<F64>() >= 0) by (nonlinear_arith)
        requires
            size_of::<F64>() >= 0,
    ;
    sum(
        sum(base, product(2, std::mem::size_of::<usize>())),
        product(buffer_room, std::mem::size_of::<F64>()),
    )
}

impl DynamicPGMIndex {
    /// The memory that the index and its buffer take.
    pub fn heap_bytes(&self) -> (r: usize)
        ensures
            exists|segment_room: usize, key_room: usize, buffer_room: usize|
                segment_room >= self.base.segments@.len() && key_room >= self.base.keys@.len()
                    && buffer_room >= self.write_buffer@.len() && r == #[trigger] buffered_bytes(
                    #[trigger] index_bytes(segment_room, key_room),
                    buffer_room,
                ),
    {
        let base: usize = self.base.heap_bytes();
        bytes_of_buffered(base, room(&self.write_buffer))
    }
}

// ---- indexes of stages ------------------------------------------------------------------

/// The sum of the first `n` of some numbers.
pub open spec fn total_of(v: Seq<usize>, n: int) -> int
    decreases n,
{
    if n <= 0 || n > v.len() {
        0
    } else {
        total_of(v, n - 1) + v[n - 1]
    }
}

/// The bytes of an index of stages with room for some stages, for the models of each
/// stage, and for some keys and positions.
pub open spec fn staged_bytes(
    stage_room: usize,
    model_rooms: Seq<usize>,
    key_room: usize,
    position_room: usize,
) -> usize {
    capped(
        size_of::<RMIIndex>() + stage_room * size_of::<RMIStage>() + capped(
            total_of(model_rooms, model_rooms.len() as int),
        ) * size_of::<LinearModel>() + key_room * size_of::<F64>() + position_room * size_of::<
            usize,
        >(),
    )
}

/// The bytes of an index of stages.
pub fn bytes_of_stages(
    stage_room: usize,
    model_rooms: &Vec<usize>,
    key_room: usize,
    position_room: usize,
) -> (r: usize)
    ensures
        r == staged_bytes(stage_room, model_rooms@, key_room, position_room),
{
    let mut models: usize = 0;
    let mut i: usize = 0;
    while i < model_rooms.len()
        invariant
            i <= model_rooms@.len(),
            models == capped(total_of(model_rooms@, i as int)),
            total_of(model_rooms@, i as int) >= 0,
        decreases model_rooms@.len() - i,
    {
        models = sum(models, model_rooms[i]);
        i = i + 1;
    }
    assert(stage_room * size_of::<RMIStage>() >= 0) by (nonlinear_arith)
        requires
            size_of::<RMIStage>() >= 0,
    ;
    assert(models * size_of::<LinearModel>() >= 0) by (nonlinear_arith)
        requires
            size_of::<LinearModel>() >= 0,
    ;
    assert(key_room * size_of::<F64>() >= 0) by (nonlinear_arith)
        requires
            size_of::<F64>() >= 0,
    ;
    assert(position_room * size_of::<usize>() >= 0) by (nonlinear_arith)
        requires
            size_of::<usize>() >= 0,
    ;
    sum(
        sum(
            sum(
                sum(
                    std::mem::size_of::<RMIIndex>(),
                    product(stage_room, std::mem::size_of::<RMIStage>()),
                ),
                product(models, std::mem::size_of::<LinearModel>()),
            ),
            product(key_room, std::mem::size_of::<F64>()),
        ),
        product(position_room, std::mem::size_of::<usize>()),
    )
}

/// Whether there is room for the models of each stage.
pub open spec fn rooms_for(rooms: Seq<usize>, stages: Seq<RMIStage>) -> bool {
    &&& rooms.len() == stages.len()
    &&& forall|i: int| 0 <= i < rooms.len() ==> (#[trigger] rooms[i]) >= stages[i].models@.len()
}

impl RMIIndex {
    /// The memory that the index takes.
    pub fn heap_bytes(&self) -> (r: usize)
        ensures
            exists|stages: usize, models: Seq<usize>, keys: usize, positions: usize|
                stages >= self.stages@.len() && rooms_for(models, self.stages@) && keys
                    >= self.keys@.len() && positions >= self.positions@.len() && r
                    == #[trigger] staged_bytes(stages, models, keys, positions),
    {
        let mut rooms: Vec<usize> = Vec::new();
        let mut i: usize = 0;
        while i < self.stages.len()
            invariant
                i <= self.stages@.len(),
                rooms@.len() == i,
                forall|k: int|
                    0 <= k < i ==> (#[trigger] rooms@[k]) >= self.stages@[k].models@.len(),
            decreases self.stages@.len() - i,
        {
            rooms.push(room(&self.stages[i].models));
            i = i + 1;
        }
        assert(rooms_for(rooms@, self.stages@));
        bytes_of_stages(
            room(&self.stages),
            &rooms,
            room(&self.keys),
            room(&self.positions),
        )
    }
}

// ---- trees ------------------------------------------------------------------------------

/// What there is in a tree, or room for: nodes, keys, values and children.
#[derive(Clone, Copy, Debug, PartialEq, Eq, Structural)]
pub struct TreeRoom {
    pub nodes: usize,
    pub keys: usize,
    pub values: usize,
    pub children: usize,
}

/// What there is in a tree, as contracts speak of it.
pub struct Tally {
    pub nodes: int,
    pub keys: int,
    pub values: int,
    pub children: int,
}

/// What there is under a node, itself counted.
pub open spec fn tally(n: Node) -> Tally
    decreases n, 0int,
{
    match n {
        Node::Leaf { keys, values } => Tally {
            nodes: 1,
            keys: keys@.len() as int,
            values: values@.len() as int,
            children: 0,
        },
        Node::Internal { keys, children } => {
            let below = tally_from(children@, 0);
            Tally {
                nodes: below.nodes + 1,
                keys: below.keys + keys@.len(),
                values: below.values,
                children: below.children + children@.len(),
            }
        },
    }
}

/// What there is under the nodes from the `i`-th on.
pub open spec fn tally_from(nodes: Seq<Box<Node>>, i: int) -> Tally
    decreases nodes, nodes.len() - i,
{
    if 0 <= i < nodes.len() {
        let here = tally(*nodes[i]);
        let rest = tally_from(nodes, i + 1);
        Tally {
            nodes: here.nodes + rest.nodes,
            keys: here.keys + rest.keys,
            values: here.values + rest.values,
            children: here.children + rest.children,
        }
    } else {
        Tally { nodes: 0, keys: 0, values: 0, children: 0 }
    }
}

/// Whether rooms are enough for what there is; the nodes are counted.
pub open spec fn holds_tally(r: TreeRoom, t: Tally) -> bool {
    &&& r.nodes == capped(t.nodes)
    &&& r.keys >= capped(t.keys)
    &&& r.values >= capped(t.values)
    &&& r.children >= capped(t.children)
    &&& t.nodes >= 0
    &&& t.keys >= 0
    &&& t.values >= 0
    &&& t.children >= 0
}

fn rooms_below(children: &Vec<Box<Node>>, i: usize) -> (r: TreeRoom)
    requires
        i <= children@.len(),
    ensures
        holds_tally(r, tally_from(children@, i as int)),
    decreases children@, children@.len() - i,
{
    if i < children.len() {
        let here = children[i].rooms();
        let rest = rooms_below(children, i + 1);
        TreeRoom {
            nodes: sum(here.nodes, rest.nodes),
            keys: sum(here.keys, rest.keys),
            values: sum(here.values, rest.values),
            children: sum(here.children, rest.children),
        }
    } else {
        TreeRoom { nodes: 0, keys: 0, values: 0, children: 0 }
    }
}

/// The bytes of a tree with some rooms.
pub open spec fn tree_bytes(r: TreeRoom) -> usize {
    capped(
        size_of::<BTree>() + r.nodes * size_of::<Node>() + r.keys * size_of::<F64>() + r.values
            * size_of::<usize>() + r.children * size_of::<Box<Node>>(),
    )
}

/// The bytes of a tree with some rooms.
pub fn bytes_of_tree(room_taken: TreeRoom) -> (r: usize)
    ensures
        r == tree_bytes(room_taken),
{
    let TreeRoom { nodes, keys, values, children } = room_taken;
    assert(nodes * size_of::<Node>() >= 0) by (nonlinear_arith)
        requires
            size_of::<Node>() >= 0,
    ;
    assert(keys * size_of::<F64>() >= 0) by (nonlinear_arith)
        requires
            size_of::<F64>() >= 0,
    ;
    assert(values * size_of::<usize>() >= 0) by (nonlinear_arith)
        requires
            size_of::<usize>() >= 0,
    ;
    assert(children * size_of::<Box<Node>>() >= 0) by (nonlinear_arith)
        requires
            size_of::<Box<Node>>() >= 0,
    ;
    sum(
        sum(
            sum(
                sum(std::mem::size_of::<BTree>(), product(nodes, std::mem::size_of::<Node>())),
                product(keys, std::mem::size_of::<F64>()),
            ),
            product(values, std::mem::size_of::<usize>()),
        ),
        product(children, std::mem::size_of::<Box<Node>>()),
    )
}

impl Node {
    fn rooms(&self) -> (r: TreeRoom)
        ensures
            holds_tally(r, tally(*self)),
        decreases *self, 0int,
    {
        match self {
            Node::Leaf { keys, values } => TreeRoom {
                nodes: 1,
                keys: room(keys),
                values: room(values),
                children: 0,
            },
            Node::Internal { keys, children } => {
                let below = rooms_below(children, 0);
                TreeRoom {
                    nodes: sum(below.nodes, 1),
                    keys: sum(below.keys, room(keys)),
                    values: below.values,
                    children: sum(below.children, room(children)),
                }
            },
        }
    }
}

impl BTree {
    /// The memory that the tree takes.
    pub fn heap_bytes(&self) -> (r: usize)
        ensures
            exists|rooms: TreeRoom|
                holds_tally(rooms, tally(*self.root)) && r == #[trigger] tree_bytes(rooms),
    {
        bytes_of_tree(self.root.rooms())
    }
}

} // verus!
