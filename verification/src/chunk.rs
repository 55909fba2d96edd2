//! Chunks: fixed-width partitions of a relation's block space, and the
//! per-chunk watermark bookkeeping that decides where delta layers are cut.
use vstd::prelude::*;

use crate::{CHUNK_SIZE, DELTA_SIZE};
use crate::store::{key_le, key_lt, Key};

verus! {

/// The largest block number whose chunk end still fits in 32 bits.
pub const BLKNO_LIMIT: u32 = 0xFFFF_FF00;

/// A chunk: `CHUNK_SIZE` consecutive blocks of one relation,
/// `[start, end)` with `end == start + CHUNK_SIZE`.
#[derive(Clone, Copy, PartialEq, Eq, Structural, Debug)]
pub struct ChunkBounds {
    pub relnum: u32,
    pub start: u32,
    pub end: u32,
}

/// Watermarks of one chunk: the highest LSN written, the highest LSN already
/// spilled, the bytes accumulated since the last boundary, and the strictly
/// increasing LSNs at which delta-layer cuts were forced.
#[derive(Clone, PartialEq, Eq, Debug)]
pub struct ChunkInfo {
    pub latest_lsn: u64,
    pub s3_lsn: u64,
    pub wal_size_since_last_layer: u64,
    pub layer_lsn_marks: Vec<u64>,
}

/// Mathematical image of a `ChunkInfo`.
pub ghost struct ChunkInfoModel {
    pub latest_lsn: u64,
    pub s3_lsn: u64,
    pub acc: int,
    pub marks: Seq<u64>,
}

impl View for ChunkInfo {
    type V = ChunkInfoModel;

    open spec fn view(&self) -> ChunkInfoModel {
        ChunkInfoModel {
            latest_lsn: self.latest_lsn,
            s3_lsn: self.s3_lsn,
            acc: self.wal_size_since_last_layer as int,
            marks: self.layer_lsn_marks@,
        }
    }
}

/// The chunk watermark invariants.
pub open spec fn chunk_info_wf(m: ChunkInfoModel) -> bool {
    &&& m.s3_lsn <= m.latest_lsn
    &&& 0 <= m.acc <= DELTA_SIZE
    &&& forall|i: int, j: int| 0 <= i < j < m.marks.len() ==> m.marks[i] < m.marks[j]
    &&& m.marks.len() > 0 ==> m.s3_lsn < m.marks[0] && m.marks.last() <= m.latest_lsn
}

/// A chunk that has nothing left to spill carries no pending marks.
pub proof fn lemma_quiescent_chunk_has_no_marks(m: ChunkInfoModel)
    requires
        chunk_info_wf(m),
        m.latest_lsn == m.s3_lsn,
    ensures
        m.marks.len() == 0,
{
}

/// The state of a chunk on its first write at `lsn`, before that write's
/// size is accounted.
pub open spec fn fresh_chunk_info(lsn: u64) -> ChunkInfoModel {
    ChunkInfoModel { latest_lsn: lsn, s3_lsn: 0, acc: 0, marks: Seq::empty() }
}

/// How one write at `lsn` of `size` bytes moves a chunk's watermarks: the
/// latest LSN advances, the accumulator grows, and once it exceeds
/// `DELTA_SIZE` a boundary mark is cut at `lsn` and the accumulator resets.
pub open spec fn chunk_step(m: ChunkInfoModel, lsn: u64, size: u32) -> ChunkInfoModel {
    let acc2 = m.acc + size;
    if acc2 > DELTA_SIZE {
        let cut = if m.marks.len() == 0 {
            lsn > m.s3_lsn
        } else {
            lsn > m.marks.last()
        };
        ChunkInfoModel {
            latest_lsn: lsn,
            s3_lsn: m.s3_lsn,
            acc: 0,
            marks: if cut {
                m.marks.push(lsn)
            } else {
                m.marks
            },
        }
    } else {
        ChunkInfoModel { latest_lsn: lsn, s3_lsn: m.s3_lsn, acc: acc2, marks: m.marks }
    }
}

impl ChunkInfo {
    /// A chunk lazily created on its first write at `lsn`.
    pub fn new_for(lsn: u64) -> (r: ChunkInfo)
        ensures
            r@ == fresh_chunk_info(lsn),
            chunk_info_wf(r@),
    {
        let r = ChunkInfo {
            latest_lsn: lsn,
            s3_lsn: 0,
            wal_size_since_last_layer: 0,
            layer_lsn_marks: Vec::new(),
        };
        proof {
            assert(r@.marks =~= fresh_chunk_info(lsn).marks);
        }
        r
    }

    /// Accounts one write at `lsn` of `size` bytes.
    pub fn apply_write(&mut self, lsn: u64, size: u32)
        requires
            chunk_info_wf(old(self)@),
            lsn >= old(self)@.latest_lsn,
        ensures
            final(self)@ == chunk_step(old(self)@, lsn, size),
            chunk_info_wf(final(self)@),
    {
        self.latest_lsn = lsn;
        self.wal_size_since_last_layer = self.wal_size_since_last_layer + size as u64;
        if self.wal_size_since_last_layer > DELTA_SIZE {
            let cut = if self.layer_lsn_marks.len() == 0 {
                lsn > self.s3_lsn
            } else {
                lsn > self.layer_lsn_marks[self.layer_lsn_marks.len() - 1]
            };
            if cut {
                self.layer_lsn_marks.push(lsn);
            }
            self.wal_size_since_last_layer = 0;
        }
    }
}

/// The chunk holding block `blkno` of relation `relnum`.
pub open spec fn bounds_for(relnum: u32, blkno: u32) -> ChunkBounds {
    ChunkBounds {
        relnum,
        start: (blkno - blkno % CHUNK_SIZE) as u32,
        end: ((blkno - blkno % CHUNK_SIZE) + CHUNK_SIZE) as u32,
    }
}

pub open spec fn bounds_aligned(b: ChunkBounds) -> bool {
    &&& b.start % CHUNK_SIZE == 0
    &&& b.end == b.start + CHUNK_SIZE
}

/// Whether a store key falls inside a chunk's block range.
pub open spec fn in_chunk(b: ChunkBounds, k: Key) -> bool {
    k.relnum == b.relnum && b.start <= k.blkno < b.end
}

impl ChunkBounds {
    /// The store key range covering this chunk: every key of the chunk's
    /// relation with a block in `[start, end)`, at any LSN, and no other.
    pub fn as_key_range(&self) -> (r: (Key, Key))
        ensures
            r.0 == (Key { relnum: self.relnum, blkno: self.start, lsn: 0 }),
            r.1 == (Key { relnum: self.relnum, blkno: self.end, lsn: 0 }),
            forall|k: Key| (key_le(r.0, k) && key_lt(k, r.1)) <==> in_chunk(*self, k),
    {
        (
            Key { relnum: self.relnum, blkno: self.start, lsn: 0 },
            Key { relnum: self.relnum, blkno: self.end, lsn: 0 },
        )
    }
}

/// A chunk and its watermarks, as tracked by the page server.
#[derive(Clone, PartialEq, Eq, Debug)]
pub struct ChunkSlot {
    pub bounds: ChunkBounds,
    pub info: ChunkInfo,
}

pub ghost struct SlotModel {
    pub bounds: ChunkBounds,
    pub info: ChunkInfoModel,
}

impl View for ChunkSlot {
    type V = SlotModel;

    open spec fn view(&self) -> SlotModel {
        SlotModel { bounds: self.bounds, info: self.info@ }
    }
}

} // verus!
