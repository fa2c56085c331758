//! The resource-addressing layer: a segment of integers split into fixed
//! size chunks, and tuples addressing values by index. A tuple's id — the
//! comma-joined decimal indices — is what the lock table uses as a
//! resource id; the core treats it as an opaque key.

use vstd::prelude::*;
use vstd::slice::slice_to_vec;
use crate::decimal::{spec_dec, spec_id_of, join_indices, usize_to_string};

verus! {

pub type ResourceId = String;

pub type IndexRange = (usize, usize);

/// Mathematical image of a [`Tuple`].
#[verifier::ext_equal]
pub ghost struct TupleV {
    pub tuple_id: Seq<char>,
    pub index: Seq<i32>,
    pub values: Seq<i32>,
}

/// A tuple address: the indices it names, the values read there (empty
/// until read), and the id string the lock table keys on.
#[derive(Debug, Clone)]
pub struct Tuple {
    pub tuple_id: ResourceId,
    pub index: Vec<i32>,
    pub values: Vec<i32>,
}

impl View for Tuple {
    type V = TupleV;

    open spec fn view(&self) -> TupleV {
        TupleV { tuple_id: self.tuple_id@, index: self.index@, values: self.values@ }
    }
}

impl Tuple {
    /// A tuple naming `idx_slice` with no values read yet; its id is the
    /// comma-joined decimal rendering of the indices.
    pub fn empty_tuple(idx_slice: &[i32]) -> (r: Self)
        ensures
            r@.tuple_id == spec_id_of(idx_slice@),
            r@.index == idx_slice@,
            r@.values.len() == 0,
    {
        Self {
            tuple_id: join_indices(idx_slice),
            index: slice_to_vec(idx_slice),
            values: Vec::new(),
        }
    }
}

/// Mathematical image of a [`DataChunk`].
#[verifier::ext_equal]
pub ghost struct ChunkV {
    pub chunk_id: Seq<char>,
    pub start: int,
    pub end: int,
    pub seq_data: Seq<i32>,
}

/// One chunk of a segment: the id `"start,end"` and the data of the index
/// range `start..end`.
#[derive(Debug, Clone)]
pub struct DataChunk {
    chunk_id: ResourceId,
    start: usize,
    end: usize,
    seq_data: Vec<i32>,
}

impl View for DataChunk {
    type V = ChunkV;

    closed spec fn view(&self) -> ChunkV {
        ChunkV {
            chunk_id: self.chunk_id@,
            start: self.start as int,
            end: self.end as int,
            seq_data: self.seq_data@,
        }
    }
}

impl DataChunk {
    /// The value stored at offset `i` of this chunk.
    pub fn value_at(&self, i: usize) -> (r: i32)
        requires
            i < self@.seq_data.len(),
        ensures
            r == self@.seq_data[i as int],
    {
        self.seq_data[i]
    }

    pub fn start(&self) -> (r: usize)
        ensures
            r as int == self@.start,
    {
        self.start
    }

    pub fn end(&self) -> (r: usize)
        ensures
            r as int == self@.end,
    {
        self.end
    }
}

/// The id of a chunk covering `start..end`: both bounds in decimal,
/// joined by a comma.
pub open spec fn spec_chunk_id(start: int, end: int) -> Seq<char> {
    spec_dec(start as nat) + seq![','] + spec_dec(end as nat)
}

/// The chunk covering `start..end` of `data`.
pub open spec fn chunk_of(data: Seq<i32>, start: int, end: int) -> ChunkV {
    ChunkV {
        chunk_id: spec_chunk_id(start, end),
        start,
        end,
        seq_data: data.subrange(start, end),
    }
}

/// The chunks a segment is split into, from offset `start` on: each chunk
/// covers `capacity_per_chunk` values, and the last one stops one short
/// of the data's length.
pub open spec fn chunks_from(data: Seq<i32>, cpc: int, start: int) -> Seq<ChunkV>
    decreases data.len() - start,
{
    if cpc < 1 || start < 0 || start >= data.len() {
        Seq::<ChunkV>::empty()
    } else if start + cpc >= data.len() {
        seq![chunk_of(data, start, data.len() - 1)]
    } else {
        seq![chunk_of(data, start, start + cpc)] + chunks_from(data, cpc, start + cpc)
    }
}

/// Mathematical image of a [`Segment`].
#[verifier::ext_equal]
pub ghost struct SegV {
    pub segment_id: Seq<char>,
    pub capacity: int,
    pub capacity_per_chunk: int,
    pub chunks: Seq<ChunkV>,
}

impl SegV {
    /// The shape `from_ints` establishes: chunks tile `0..capacity`,
    /// consecutive and in order, each holding exactly its index range's
    /// data, the last one ending at `capacity - 1`.
    pub open spec fn wf(self) -> bool {
        &&& self.chunks.len() >= 1
        &&& 1 <= self.capacity <= i32::MAX
        &&& self.capacity_per_chunk >= 1
        &&& self.chunks[0].start == 0
        &&& self.chunks[self.chunks.len() - 1].end == self.capacity - 1
        &&& forall|i: int|
            0 <= i < self.chunks.len() - 1 ==> (#[trigger] self.chunks[i]).end
                == self.chunks[i].start + self.capacity_per_chunk && self.chunks[i + 1].start
                == self.chunks[i].end
        &&& forall|i: int|
            0 <= i < self.chunks.len() ==> (#[trigger] self.chunks[i]).start <= self.chunks[i].end
                < self.capacity && self.chunks[i].seq_data.len() == self.chunks[i].end
                - self.chunks[i].start
    }

    /// Does `i` name the first chunk whose end lies past `idx`?
    pub open spec fn first_cover(self, idx: int, i: int) -> bool {
        &&& 0 <= i < self.chunks.len()
        &&& self.chunks[i].end > idx
        &&& forall|k: int| 0 <= k < i ==> (#[trigger] self.chunks[k]).end <= idx
    }

    /// The chunk `get_chunk` answers for `idx`: the first whose end lies
    /// past `idx`, or the last when none does.
    pub open spec fn cover_index(self, idx: int) -> int {
        if exists|i: int| self.first_cover(idx, i) {
            choose|i: int| self.first_cover(idx, i)
        } else {
            self.chunks.len() - 1
        }
    }
}

/// A segment: an integer dataset split into chunks of a fixed capacity.
#[derive(Debug, Clone)]
pub struct Segment {
    segment_id: ResourceId,
    capacity: usize,
    capacity_per_chunk: usize,
    chunks: Vec<DataChunk>,
}

impl View for Segment {
    type V = SegV;

    closed spec fn view(&self) -> SegV {
        SegV {
            segment_id: self.segment_id@,
            capacity: self.capacity as int,
            capacity_per_chunk: self.capacity_per_chunk as int,
            chunks: self.chunks@.map_values(|c: DataChunk| c@),
        }
    }
}

/// `chunks_from` produces the well-formed tiling.
proof fn lemma_chunks_from_wf(data: Seq<i32>, cpc: int, start: int)
    requires
        cpc >= 1,
        0 <= start < data.len(),
        data.len() >= 1,
    ensures
        ({
            let cs = chunks_from(data, cpc, start);
            {
                &&& cs.len() >= 1
                &&& cs[0].start == start
                &&& cs[cs.len() - 1].end == data.len() - 1
                &&& forall|i: int|
                    0 <= i < cs.len() - 1 ==> (#[trigger] cs[i]).end == cs[i].start + cpc && cs[i
                        + 1].start == cs[i].end
                &&& forall|i: int|
                    0 <= i < cs.len() ==> (#[trigger] cs[i]).start <= cs[i].end < data.len()
                        && cs[i].seq_data.len() == cs[i].end - cs[i].start && cs[i].seq_data
                        == data.subrange(cs[i].start, cs[i].end) && cs[i].chunk_id
                        == spec_chunk_id(cs[i].start, cs[i].end)
            }
        }),
    decreases data.len() - start,
{
    let cs = chunks_from(data, cpc, start);
    if start + cpc >= data.len() {
    } else {
        lemma_chunks_from_wf(data, cpc, start + cpc);
        let rest = chunks_from(data, cpc, start + cpc);
        assert(cs[0] == chunk_of(data, start, start + cpc));
        assert(forall|i: int| 1 <= i < cs.len() ==> cs[i] == rest[i - 1]);
    }
}

impl Segment {
    /// Splits `ints` into chunks of `capacity_per_chunk` values each; the
    /// last chunk stops one short of the data's length, mirroring the
    /// split's closing step.
    pub fn from_ints(capacity_per_chunk: usize, ints: &[i32], segment_id: String) -> (r: Self)
        requires
            capacity_per_chunk >= 1,
            1 <= ints@.len() <= i32::MAX,
            ints@.len() + capacity_per_chunk <= usize::MAX,
        ensures
            r@.segment_id == segment_id@,
            r@.capacity == ints@.len(),
            r@.capacity_per_chunk == capacity_per_chunk,
            r@.chunks == chunks_from(ints@, capacity_per_chunk as int, 0),
            r@.wf(),
    {
        let mut chunks: Vec<DataChunk> = Vec::new();
        let mut is_break = false;
        let mut start: usize = 0;
        loop
            invariant
                capacity_per_chunk >= 1,
                1 <= ints@.len() <= i32::MAX,
                ints@.len() + capacity_per_chunk <= usize::MAX,
                !is_break ==> 0 <= start < ints@.len(),
                !is_break ==> chunks_from(ints@, capacity_per_chunk as int, 0) == chunks@.map_values(
                    |c: DataChunk| c@,
                ) + chunks_from(ints@, capacity_per_chunk as int, start as int),
                is_break ==> chunks_from(ints@, capacity_per_chunk as int, 0)
                    == chunks@.map_values(|c: DataChunk| c@),
            ensures
                chunks_from(ints@, capacity_per_chunk as int, 0) == chunks@.map_values(
                    |c: DataChunk| c@,
                ),
            decreases ints@.len() - start + (if is_break {
                0int
            } else {
                1int
            }),
        {
            if is_break {
                break ;
            }
            let end: usize = if start + capacity_per_chunk >= ints.len() {
                is_break = true;
                ints.len() - 1
            } else {
                start + capacity_per_chunk
            };
            let mut chunk_id = usize_to_string(start);
            chunk_id.append(",");
            let end_str = usize_to_string(end);
            chunk_id.append(end_str.as_str());
            let piece = &ints[start..end];
            let chunk = DataChunk { chunk_id, start, end, seq_data: slice_to_vec(piece) };
            let ghost pre = chunks@.map_values(|c: DataChunk| c@);
            let ghost cv = chunk@;
            chunks.push(chunk);
            proof {
                reveal_strlit(",");
                assert(cv.chunk_id =~= spec_chunk_id(start as int, end as int));
                assert(cv == chunk_of(ints@, start as int, end as int));
                assert(chunks@.map_values(|c: DataChunk| c@) =~= pre.push(cv));
                if is_break {
                    assert(chunks_from(ints@, capacity_per_chunk as int, start as int) =~= seq![
                        cv,
                    ]);
                    assert(chunks_from(ints@, capacity_per_chunk as int, 0) =~= pre.push(cv));
                } else {
                    assert(chunks_from(ints@, capacity_per_chunk as int, start as int) =~= seq![
                        cv,
                    ] + chunks_from(ints@, capacity_per_chunk as int, start as int
                        + capacity_per_chunk as int));
                    assert(chunks_from(ints@, capacity_per_chunk as int, 0) =~= pre.push(cv)
                        + chunks_from(ints@, capacity_per_chunk as int, start as int
                        + capacity_per_chunk as int));
                }
            }
            if !is_break {
                start = start + capacity_per_chunk;
            }
        }
        let r = Self { segment_id, capacity: ints.len(), capacity_per_chunk, chunks };
        proof {
            lemma_chunks_from_wf(ints@, capacity_per_chunk as int, 0);
        }
        r
    }

    /// Copies of the chunks.
    pub fn chunks(&self) -> (r: Vec<DataChunk>)
        ensures
            r@.map_values(|c: DataChunk| c@) == self@.chunks,
    {
        let mut out: Vec<DataChunk> = Vec::new();
        let mut i: usize = 0;
        while i < self.chunks.len()
            invariant
                i <= self.chunks.len(),
                out@.len() == i,
                forall|k: int| 0 <= k < i ==> (#[trigger] out@[k])@ == self@.chunks[k],
            decreases self.chunks.len() - i,
        {
            let c = DataChunk {
                chunk_id: self.chunks[i].chunk_id.clone(),
                start: self.chunks[i].start,
                end: self.chunks[i].end,
                seq_data: slice_to_vec(self.chunks[i].seq_data.as_slice()),
            };
            out.push(c);
            i = i + 1;
        }
        proof {
            assert forall|k: int|
                0 <= k < out@.len() implies (out@.map_values(|c: DataChunk| c@))[k]
                == self@.chunks[k] by {
                assert(out@[k]@ == self@.chunks[k]);
            }
            assert(out@.map_values(|c: DataChunk| c@) =~= self@.chunks);
        }
        out
    }

    /// The number of values the segment was built over.
    pub fn capacity(&self) -> (r: i32)
        requires
            self@.capacity <= i32::MAX,
        ensures
            r as int == self@.capacity,
    {
        self.capacity as i32
    }

    /// The first chunk whose end lies past `idx`, or the last chunk when
    /// none does.
    pub fn get_chunk(&self, idx: usize) -> (r: Option<&DataChunk>)
        ensures
            match r {
                Some(c) => self@.chunks.len() > 0 && c@ == self@.chunks[self@.cover_index(
                    idx as int,
                )],
                None => self@.chunks.len() == 0,
            },
    {
        let mut i: usize = 0;
        while i < self.chunks.len()
            invariant
                i <= self.chunks.len(),
                forall|k: int| 0 <= k < i ==> (#[trigger] self@.chunks[k]).end <= idx as int,
            decreases self.chunks.len() - i,
        {
            if self.chunks[i].end > idx {
                proof {
                    assert(self@.first_cover(idx as int, i as int));
                    let c = self@.cover_index(idx as int);
                    let w = choose|w: int| self@.first_cover(idx as int, w);
                    if w < i as int {
                        assert(self@.chunks[w].end <= idx as int);
                    } else if w > i as int {
                        assert(self@.chunks[i as int].end <= idx as int);
                    }
                }
                return Some(&self.chunks[i]);
            }
            i = i + 1;
        }
        if self.chunks.len() > 0 {
            proof {
                if exists|w: int| self@.first_cover(idx as int, w) {
                    let w = choose|w: int| self@.first_cover(idx as int, w);
                    assert(self@.chunks[w].end <= idx as int);
                    assert(false);
                }
            }
            Some(&self.chunks[self.chunks.len() - 1])
        } else {
            None
        }
    }

    /// Overwrites one stored value. The write lands in the chunk numbered
    /// by the element index itself, at the offset of `index` within its
    /// covering chunk: the shape the index lookup hands back.
    #[verifier::rlimit(100)]
    pub fn update_value(&mut self, index: usize, new_value: i32)
        requires
            old(self)@.wf(),
            index < old(self)@.chunks.len(),
            index as int + 1 < old(self)@.capacity,
            index as int - old(self)@.chunks[old(self)@.cover_index(index as int)].start < old(
                self,
            )@.chunks[index as int].seq_data.len(),
        ensures
            final(self)@.segment_id == old(self)@.segment_id,
            final(self)@.capacity == old(self)@.capacity,
            final(self)@.capacity_per_chunk == old(self)@.capacity_per_chunk,
            ({
                let ci = index as int;
                let off = index as int - old(self)@.chunks[old(self)@.cover_index(
                    index as int,
                )].start;
                final(self)@.chunks == old(self)@.chunks.update(
                    ci,
                    ChunkV {
                        seq_data: old(self)@.chunks[ci].seq_data.update(off, new_value),
                        ..old(self)@.chunks[ci]
                    },
                )
            }),
    {
        let idx_arg: [i32; 1] = [index as i32];
        let chunk_index_vec = self.get_chunk_index(idx_arg.as_slice());
        let ci = &chunk_index_vec[0];
        let ghost t1 = self@;
        let target = ci.index;
        let off = ci.value_index;
        let mut chunk = self.chunks.remove(target);
        let ghost cpre = chunk@;
        chunk.seq_data.set(off, new_value);
        self.chunks.insert(target, chunk);
        proof {
            assert(idx_arg@[0] == index as i32);
            assert(self@.chunks =~= t1.chunks.update(
                target as int,
                ChunkV { seq_data: cpre.seq_data.update(off as int, new_value), ..cpre },
            ));
        }
    }

    /// For each element index, the chunk number the original lookup
    /// reports — the element index itself — paired with the element's
    /// offset inside its covering chunk.
    fn get_chunk_index(&self, index: &[i32]) -> (r: Vec<DataChunkIndex>)
        requires
            self@.wf(),
            forall|j: int|
                0 <= j < index@.len() ==> 0 <= #[trigger] index@[j] && index@[j] + 1
                    < self@.capacity,
        ensures
            r@.len() == index@.len(),
            forall|j: int|
                0 <= j < r@.len() ==> (#[trigger] r@[j]).index == index@[j] && r@[j].value_index
                    == index@[j] - self@.chunks[self@.cover_index(index@[j] as int)].start,
    {
        let mut data: Vec<DataChunkIndex> = Vec::new();
        let mut i: usize = 0;
        while i < index.len()
            invariant
                self@.wf(),
                i <= index@.len(),
                forall|j: int|
                    0 <= j < index@.len() ==> 0 <= #[trigger] index@[j] && index@[j] + 1
                        < self@.capacity,
                data@.len() == i,
                forall|j: int|
                    0 <= j < i ==> (#[trigger] data@[j]).index == index@[j] && data@[j].value_index
                        == index@[j] - self@.chunks[self@.cover_index(index@[j] as int)].start,
            decreases index@.len() - i,
        {
            let idx = index[i];
            proof {
                lemma_cover_bounds(self@, idx as int);
            }
            let chunk_opt = self.get_chunk(idx as usize);
            match chunk_opt {
                Some(chunk) => {
                    let d = DataChunkIndex {
                        index: idx as usize,
                        value_index: idx as usize - chunk.start(),
                    };
                    data.push(d);
                },
                None => {
                    proof {
                        assert(false);
                    }
                },
            }
            i = i + 1;
        }
        data
    }

    /// Reads the tuple at the given element indices: the values from each
    /// index's covering chunk, under the comma-joined decimal id.
    pub fn get_tuple(&self, index: &[i32]) -> (r: Tuple)
        requires
            self@.wf(),
            forall|j: int|
                0 <= j < index@.len() ==> 0 <= #[trigger] index@[j] && index@[j] + 1
                    < self@.capacity,
        ensures
            r@.tuple_id == spec_id_of(index@),
            r@.index == index@,
            r@.values.len() == index@.len(),
            forall|j: int|
                0 <= j < index@.len() ==> #[trigger] r@.values[j] == self@.chunks[self@.cover_index(
                    index@[j] as int,
                )].seq_data[index@[j] - self@.chunks[self@.cover_index(index@[j] as int)].start],
    {
        let mut seq_vals: Vec<i32> = Vec::new();
        let mut i: usize = 0;
        while i < index.len()
            invariant
                self@.wf(),
                i <= index@.len(),
                forall|j: int|
                    0 <= j < index@.len() ==> 0 <= #[trigger] index@[j] && index@[j] + 1
                        < self@.capacity,
                seq_vals@.len() == i,
                forall|j: int|
                    0 <= j < i ==> #[trigger] seq_vals@[j] == self@.chunks[self@.cover_index(
                        index@[j] as int,
                    )].seq_data[index@[j] - self@.chunks[self@.cover_index(index@[j] as int)].start],
            decreases index@.len() - i,
        {
            let idx = index[i];
            proof {
                lemma_cover_bounds(self@, idx as int);
            }
            let chunk_opt = self.get_chunk(idx as usize);
            match chunk_opt {
                Some(chunk) => {
                    let v = chunk.value_at(idx as usize - chunk.start());
                    seq_vals.push(v);
                },
                None => {
                    proof {
                        assert(false);
                    }
                },
            }
            i = i + 1;
        }
        Tuple { tuple_id: join_indices(index), index: slice_to_vec(index), values: seq_vals }
    }
}

/// The chunk index the lookup reports for one element: the element index
/// itself, and the element's offset within its covering chunk.
#[derive(Debug, Clone)]
struct DataChunkIndex {
    index: usize,
    value_index: usize,
}

/// In a well-formed segment, the covering chunk of a valid element index
/// really contains it: its start is no later than the index and the
/// index's offset lies inside its data.
proof fn lemma_cover_bounds(s: SegV, idx: int)
    requires
        s.wf(),
        0 <= idx,
        idx + 1 < s.capacity,
    ensures
        ({
            let i = s.cover_index(idx);
            {
                &&& 0 <= i < s.chunks.len()
                &&& s.chunks[i].start <= idx
                &&& idx - s.chunks[i].start < s.chunks[i].seq_data.len()
                &&& s.first_cover(idx, i)
            }
        }),
{
    let n = s.chunks.len() as int;
    assert(s.chunks[n - 1].end == s.capacity - 1);
    assert(s.chunks[n - 1].end > idx);
    // a covering chunk exists: walk to the first one
    assert(exists|w: int| s.first_cover(idx, w)) by {
        lemma_first_cover_exists(s, idx, 0);
    }
    let i = s.cover_index(idx);
    assert(s.first_cover(idx, i));
    if i == 0 {
        assert(s.chunks[0].start == 0);
    } else {
        assert(s.chunks[i - 1].end <= idx);
        if i - 1 < n - 1 {
            assert(s.chunks[i].start == s.chunks[i - 1].end);
        }
    }
    assert(s.chunks[i].seq_data.len() == s.chunks[i].end - s.chunks[i].start);
}

/// From any position with all earlier chunks ending at or before `idx`,
/// some first covering chunk exists once the last chunk ends past `idx`.
proof fn lemma_first_cover_exists(s: SegV, idx: int, k: int)
    requires
        s.wf(),
        0 <= k < s.chunks.len(),
        s.chunks[s.chunks.len() - 1].end > idx,
        forall|m: int| 0 <= m < k ==> (#[trigger] s.chunks[m]).end <= idx,
    ensures
        exists|w: int| s.first_cover(idx, w),
    decreases s.chunks.len() - k,
{
    if s.chunks[k].end > idx {
        assert(s.first_cover(idx, k));
    } else {
        assert(k < s.chunks.len() - 1);
        lemma_first_cover_exists(s, idx, k + 1);
    }
}

} // verus!
