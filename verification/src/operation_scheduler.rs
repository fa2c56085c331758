//! The workload scheduler's helpers: operation ids minted from a clock
//! reading, random tuple indices for a segment, and read/write operation
//! pairs built from them. Reading the clock and running worker tasks stay
//! with the caller; this module holds the logic on the values they supply.

use vstd::prelude::*;
use rand::Rng;
use crate::decimal::{spec_dec, spec_id_of, u128_to_string, join_indices};
use crate::operation::{OpType, Operation};
use crate::segment::Tuple;

verus! {

/// How many operations each worker task issues.
pub const OPERATION_COUNT: i32 = 10000;

#[derive(Debug, Clone, Eq, PartialEq, Structural)]
pub struct OperationScheduler;

impl Default for OperationScheduler {
    fn default() -> (r: Self)
        ensures
            r == OperationScheduler,
    {
        OperationScheduler
    }
}

/// Relies on rand's `thread_rng` and `Rng::gen_range`: a draw from the
/// half-open range `lo..hi`, which panics when the range is empty, so the
/// range is required non-empty. Nothing more is promised of a random
/// value: every caller holds for every outcome in the range.
#[verifier::external_body]
fn rand_in_range(lo: i32, hi: i32) -> (r: i32)
    requires
        lo < hi,
    ensures
        lo <= r < hi,
{
    rand::thread_rng().gen_range(lo..hi)
}

/// The index shift used for the second and third tuple index: a successor
/// of the base, wrapped by modulus once it passes the capacity.
pub open spec fn spec_shift(base: i32, off: int, cap: i32) -> int {
    if base + off > cap {
        (cap as int) % (base + off)
    } else {
        base + off
    }
}

impl OperationScheduler {
    /// An operation id minted from a clock reading (nanoseconds since the
    /// epoch, supplied by the caller), rendered in decimal.
    pub fn op_id(now_nanos: u128) -> (r: String)
        ensures
            r@ == spec_dec(now_nanos as nat),
    {
        u128_to_string(now_nanos)
    }

    /// Four tuple indices into a segment: a random base, its two shifted
    /// successors, and one more random index.
    pub fn rand_index(segment_capacity: i32) -> (r: Vec<i32>)
        requires
            1 < segment_capacity < i32::MAX - 2,
        ensures
            r@.len() == 4,
            0 <= r@[0] < segment_capacity,
            r@[1] == spec_shift(r@[0], 1, segment_capacity),
            r@[2] == spec_shift(r@[0], 2, segment_capacity),
            1 <= r@[3] < segment_capacity,
    {
        let mut value_index: Vec<i32> = Vec::new();
        let rand_i = rand_in_range(0, segment_capacity);
        value_index.push(rand_i);
        if rand_i + 1 > segment_capacity {
            value_index.push(segment_capacity % (rand_i + 1));
        } else {
            value_index.push(rand_i + 1);
        }
        if rand_i + 2 > segment_capacity {
            value_index.push(segment_capacity % (rand_i + 2));
        } else {
            value_index.push(rand_i + 2);
        }
        let rand_j = rand_in_range(1, segment_capacity);
        value_index.push(rand_j);
        value_index
    }

    /// A read/write operation pair over freshly drawn tuple indices: the
    /// read operation addresses the tuple of the first three indices, the
    /// write operation the tuple of the single index equal to the draw's
    /// length less one.
    pub fn new_operation(segment_capacity: i32, op_id_pair: (String, String)) -> (r: (
        Operation,
        Operation,
    ))
        requires
            1 < segment_capacity < i32::MAX - 2,
        ensures
            r.0@.op_type == OpType::Read,
            r.0@.id == op_id_pair.0@,
            r.1@.op_type == OpType::Write,
            r.1@.id == op_id_pair.1@,
            r.1@.resources == spec_id_of(seq![3i32]),
            exists|vi: Seq<i32>|
                vi.len() == 4 && #[trigger] spec_id_of(vi.subrange(0, 3)) == r.0@.resources && 0
                    <= vi[0] < segment_capacity && vi[1] == spec_shift(vi[0], 1, segment_capacity)
                    && vi[2] == spec_shift(vi[0], 2, segment_capacity),
    {
        let value_index = Self::rand_index(segment_capacity);
        let idx_slice = value_index.as_slice();
        let read_slice = &idx_slice[0..3];
        let read_tuple = Tuple::empty_tuple(read_slice);
        let write_idx: i32 = 3;
        let mut write_indices: Vec<i32> = Vec::new();
        write_indices.push(write_idx);
        let write_tuple = Tuple::empty_tuple(write_indices.as_slice());
        proof {
            assert(read_slice@ =~= value_index@.subrange(0, 3));
            assert(write_indices@ =~= seq![3i32]);
            assert(value_index@.len() == 4 && spec_id_of(value_index@.subrange(0, 3))
                == read_tuple@.tuple_id);
        }
        (
            Operation::new(op_id_pair.0, read_tuple.tuple_id, OpType::Read),
            Operation::new(op_id_pair.1, write_tuple.tuple_id, OpType::Write),
        )
    }
}

} // verus!
