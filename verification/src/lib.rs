//! A log-structured page-server model: it ingests a stream of versioned page
//! writes (relation, block number, LSN, size), keeps them in an ordered
//! versioned store, tracks per-chunk boundary watermarks, and derives
//! range-bounded delta layers and point-in-time full snapshot layers from the
//! accumulated history.
use vstd::prelude::*;

pub mod chunk;
pub mod errors;
pub mod lsn;
pub mod numfmt;
pub mod parse;
pub mod spill;
pub mod store;

use crate::chunk::{
    bounds_aligned, bounds_for, chunk_info_wf, chunk_step, fresh_chunk_info, ChunkBounds,
    ChunkInfo, ChunkSlot, SlotModel, BLKNO_LIMIT,
};
use crate::errors::RangeInvariantError;
use crate::store::{entries_map, has_key, sorted, Key, StoreEntry, VersionedStore};

verus! {

/// Number of consecutive block numbers covered by one chunk.
pub const CHUNK_SIZE: u32 = 1280;

/// Once this many bytes have accumulated in a chunk since the last boundary
/// mark, a new delta-layer cut is forced.
pub const DELTA_SIZE: u64 = 10 * 1024 * 1024;

/// First index of `tag` in the remap table; `remap.len()` if absent.
pub open spec fn tag_index(remap: Seq<Seq<char>>, tag: Seq<char>) -> int
    decreases remap.len(),
{
    if remap.len() == 0 {
        0
    } else if remap[0] == tag {
        0
    } else {
        1 + tag_index(remap.drop_first(), tag)
    }
}

/// The stable numeric id a relation tag resolves to: its position in
/// first-seen order, counted from 1; a fresh tag gets `remap.len() + 1`.
pub open spec fn rel_id_of(remap: Seq<Seq<char>>, tag: Seq<char>) -> int {
    if tag_index(remap, tag) < remap.len() {
        tag_index(remap, tag) + 1
    } else {
        remap.len() as int + 1
    }
}

pub proof fn lemma_tag_index_basic(remap: Seq<Seq<char>>, tag: Seq<char>)
    ensures
        0 <= tag_index(remap, tag) <= remap.len(),
        tag_index(remap, tag) < remap.len() ==> remap[tag_index(remap, tag)] == tag,
        forall|i: int| 0 <= i < tag_index(remap, tag) ==> remap[i] != tag,
    decreases remap.len(),
{
    if remap.len() == 0 || remap[0] == tag {
    } else {
        lemma_tag_index_basic(remap.drop_first(), tag);
        assert forall|i: int| 0 <= i < tag_index(remap, tag) implies remap[i] != tag by {
            if i > 0 {
                assert(remap.drop_first()[i - 1] == remap[i]);
            }
        }
    }
}

proof fn lemma_tag_index_agree(remap: Seq<Seq<char>>, tag: Seq<char>, k: int)
    requires
        0 <= k <= remap.len(),
        forall|i: int| 0 <= i < k ==> remap[i] != tag,
        k < remap.len() ==> remap[k] == tag,
    ensures
        tag_index(remap, tag) == k,
    decreases k,
{
    if remap.len() == 0 {
    } else if k == 0 {
    } else {
        let r2 = remap.drop_first();
        assert forall|i: int| 0 <= i < k - 1 implies r2[i] != tag by {
            assert(r2[i] == remap[i + 1]);
        }
        assert(k - 1 < r2.len() ==> r2[k - 1] == remap[k]);
        lemma_tag_index_agree(r2, tag, k - 1);
    }
}

/// First index of a chunk with bounds `b`; `chunks.len()` if absent.
pub open spec fn chunk_index(chunks: Seq<SlotModel>, b: ChunkBounds) -> int
    decreases chunks.len(),
{
    if chunks.len() == 0 {
        0
    } else if chunks[0].bounds == b {
        0
    } else {
        1 + chunk_index(chunks.drop_first(), b)
    }
}

pub proof fn lemma_chunk_index_basic(chunks: Seq<SlotModel>, b: ChunkBounds)
    ensures
        0 <= chunk_index(chunks, b) <= chunks.len(),
        chunk_index(chunks, b) < chunks.len() ==> chunks[chunk_index(chunks, b)].bounds == b,
        forall|i: int| 0 <= i < chunk_index(chunks, b) ==> chunks[i].bounds != b,
    decreases chunks.len(),
{
    if chunks.len() == 0 || chunks[0].bounds == b {
    } else {
        lemma_chunk_index_basic(chunks.drop_first(), b);
        assert forall|i: int| 0 <= i < chunk_index(chunks, b) implies chunks[i].bounds != b by {
            if i > 0 {
                assert(chunks.drop_first()[i - 1] == chunks[i]);
            }
        }
    }
}

proof fn lemma_chunk_index_agree(chunks: Seq<SlotModel>, b: ChunkBounds, k: int)
    requires
        0 <= k <= chunks.len(),
        forall|i: int| 0 <= i < k ==> chunks[i].bounds != b,
        k < chunks.len() ==> chunks[k].bounds == b,
    ensures
        chunk_index(chunks, b) == k,
    decreases k,
{
    if chunks.len() == 0 {
    } else if k == 0 {
    } else {
        let c2 = chunks.drop_first();
        assert forall|i: int| 0 <= i < k - 1 implies c2[i].bounds != b by {
            assert(c2[i] == chunks[i + 1]);
        }
        assert(k - 1 < c2.len() ==> c2[k - 1] == chunks[k]);
        lemma_chunk_index_agree(c2, b, k - 1);
    }
}

/// Ids are handed out 1, 2, 3, … in first-seen order: the tag first seen
/// k-th resolves to id k + 1.
pub proof fn lemma_remap_first_seen_ids(remap: Seq<Seq<char>>)
    requires
        forall|i: int, j: int| 0 <= i < j < remap.len() ==> remap[i] != remap[j],
    ensures
        forall|k: int| 0 <= k < remap.len() ==> rel_id_of(remap, #[trigger] remap[k]) == k + 1,
{
    assert forall|k: int| 0 <= k < remap.len() implies rel_id_of(remap, #[trigger] remap[k]) == k
        + 1 by {
        lemma_tag_index_basic(remap, remap[k]);
        let idx = tag_index(remap, remap[k]);
        if idx < k {
            assert(remap[idx] == remap[k]);
        }
    }
}

/// A tag's id is permanent: once a tag is in the table, resolving any other
/// tag — which at most appends — leaves its id unchanged.
pub proof fn lemma_remap_stable(remap: Seq<Seq<char>>, t: Seq<char>, u: Seq<char>)
    requires
        forall|i: int, j: int| 0 <= i < j < remap.len() ==> remap[i] != remap[j],
        tag_index(remap, t) < remap.len(),
    ensures
        ({
            let remap2 = if tag_index(remap, u) < remap.len() {
                remap
            } else {
                remap.push(u)
            };
            rel_id_of(remap2, t) == rel_id_of(remap, t)
        }),
{
    if !(tag_index(remap, u) < remap.len()) {
        let r2 = remap.push(u);
        lemma_tag_index_basic(remap, t);
        let idx = tag_index(remap, t);
        assert(forall|i: int| 0 <= i < idx ==> r2[i] == remap[i]);
        assert(r2[idx] == remap[idx]);
        lemma_tag_index_agree(r2, t, idx);
    }
}

/// The ingestion state of one run: the versioned store, the relation remap
/// table, the run's LSN cursor (advanced by the caller, for diagnostics),
/// and the chunk watermark table.
pub struct Pageserver {
    pub store: VersionedStore,
    pub rel_remap: Vec<String>,
    pub current_lsn: u64,
    pub chunks: Vec<ChunkSlot>,
}

impl Pageserver {
    pub open spec fn remap_view(self) -> Seq<Seq<char>> {
        self.rel_remap@.map_values(|t: String| t@)
    }

    pub open spec fn chunks_view(self) -> Seq<SlotModel> {
        self.chunks@.map_values(|c: ChunkSlot| c@)
    }

    /// Invariants of the ingestion state: the store is sorted, tags are
    /// remapped injectively, and every chunk's watermarks are well formed,
    /// aligned to the chunk grid, and unique.
    pub open spec fn wf(self) -> bool {
        &&& sorted(self.store@)
        &&& forall|i: int, j: int|
            0 <= i < j < self.remap_view().len() ==> self.remap_view()[i] != self.remap_view()[j]
        &&& forall|i: int|
            0 <= i < self.chunks_view().len() ==> chunk_info_wf(
                #[trigger] self.chunks_view()[i].info,
            )
        &&& forall|i: int|
            0 <= i < self.chunks_view().len() ==> bounds_aligned(
                #[trigger] self.chunks_view()[i].bounds,
            )
        &&& forall|i: int, j: int|
            0 <= i < j < self.chunks_view().len() ==> self.chunks_view()[i].bounds
                != self.chunks_view()[j].bounds
    }

    /// A fresh page server with an empty store, no remapped relations and no
    /// chunks.
    pub fn new() -> (r: Pageserver)
        ensures
            r.wf(),
            r.store@ == Seq::<StoreEntry>::empty(),
            r.remap_view() == Seq::<Seq<char>>::empty(),
            r.chunks_view() == Seq::<SlotModel>::empty(),
            r.current_lsn == 0,
    {
        let r = Pageserver {
            store: VersionedStore::new(),
            rel_remap: Vec::new(),
            current_lsn: 0,
            chunks: Vec::new(),
        };
        proof {
            assert(r.remap_view() =~= Seq::<Seq<char>>::empty());
            assert(r.chunks_view() =~= Seq::<SlotModel>::empty());
        }
        r
    }

    /// The chunk holding block `pagetag` of relation `relnum`: `start` is
    /// `pagetag` rounded down to a multiple of `CHUNK_SIZE`, `end` one chunk
    /// later, so `start <= pagetag < end`.
    pub fn page_to_bounds(&self, relnum: u32, pagetag: u32) -> (r: ChunkBounds)
        requires
            pagetag < BLKNO_LIMIT,
        ensures
            r == bounds_for(relnum, pagetag),
            bounds_aligned(r),
            r.relnum == relnum,
            r.start <= pagetag < r.end,
            r.end == r.start + CHUNK_SIZE,
    {
        let start = (pagetag / CHUNK_SIZE) * CHUNK_SIZE;
        let r = ChunkBounds { relnum, start, end: start + CHUNK_SIZE };
        r
    }

    /// Ingests one write: resolves the relation id — assigning the next
    /// sequential id, counted from 1 in first-seen order, on first sight —
    /// records the write in the store, and moves the write's chunk
    /// watermarks by `chunk_step`. Rejects a zero-size write, and a write
    /// whose LSN lies below its own chunk's latest LSN; a rejected write
    /// changes nothing. The run cursor `current_lsn` is the caller's to
    /// advance.
    pub fn add_wal_record(&mut self, reltag_str: String, blkno: u32, lsn: u64, size: u32) -> (r:
        Result<(), RangeInvariantError>)
        requires
            old(self).wf(),
            blkno < BLKNO_LIMIT,
            old(self).remap_view().len() + 1 <= u32::MAX,
        ensures
            final(self).wf(),
            r == Err::<(), RangeInvariantError>(RangeInvariantError::ZeroSize) <==> size == 0,
            r == Err::<(), RangeInvariantError>(RangeInvariantError::OutOfOrderLsn) <==> ({
                let id = rel_id_of(old(self).remap_view(), reltag_str@);
                let ci = chunk_index(old(self).chunks_view(), bounds_for(id as u32, blkno));
                &&& size > 0
                &&& ci < old(self).chunks_view().len()
                &&& lsn < old(self).chunks_view()[ci].info.latest_lsn
            }),
            r is Err ==> *final(self) == *old(self),
            r is Ok ==> ({
                let id = rel_id_of(old(self).remap_view(), reltag_str@);
                let key = (Key { relnum: id as u32, blkno, lsn });
                let b = bounds_for(id as u32, blkno);
                let ci = chunk_index(old(self).chunks_view(), b);
                &&& final(self).current_lsn == old(self).current_lsn
                &&& final(self).remap_view() == if tag_index(old(self).remap_view(), reltag_str@)
                    < old(self).remap_view().len() {
                    old(self).remap_view()
                } else {
                    old(self).remap_view().push(reltag_str@)
                }
                &&& entries_map(final(self).store@) == entries_map(old(self).store@).insert(
                    key,
                    size,
                )
                &&& final(self).store@.len() == old(self).store@.len() + (if has_key(
                    old(self).store@,
                    key,
                ) {
                    0int
                } else {
                    1int
                })
                &&& final(self).chunks_view() == if ci < old(self).chunks_view().len() {
                    old(self).chunks_view().update(
                        ci,
                        (SlotModel {
                            bounds: b,
                            info: chunk_step(old(self).chunks_view()[ci].info, lsn, size),
                        }),
                    )
                } else {
                    old(self).chunks_view().push(
                        (SlotModel { bounds: b, info: chunk_step(fresh_chunk_info(lsn), lsn, size) }),
                    )
                }
            }),
    {
        let ghost tag = reltag_str@;
        if size == 0 {
            return Err(RangeInvariantError::ZeroSize);
        }
        let n_rel = self.rel_remap.len();
        let mut ti: usize = 0;
        while ti < n_rel && !(self.rel_remap[ti] == reltag_str)
            invariant
                0 <= ti <= n_rel,
                n_rel == self.remap_view().len(),
                self == old(self),
                forall|j: int| 0 <= j < ti ==> self.remap_view()[j] != reltag_str@,
            decreases n_rel - ti,
        {
            ti += 1;
        }
        proof {
            assert(ti < n_rel ==> self.remap_view()[ti as int] == reltag_str@);
            lemma_tag_index_agree(self.remap_view(), reltag_str@, ti as int);
        }
        let relnum: u32 = if ti < n_rel {
            (ti as u32) + 1
        } else {
            (n_rel as u32) + 1
        };
        proof {
            assert(relnum == rel_id_of(old(self).remap_view(), tag));
        }
        let bounds = self.page_to_bounds(relnum, blkno);
        let nc = self.chunks.len();
        let mut ci: usize = 0;
        while ci < nc && !(self.chunks[ci].bounds == bounds)
            invariant
                0 <= ci <= nc,
                nc == self.chunks_view().len(),
                self == old(self),
                forall|j: int| 0 <= j < ci ==> self.chunks_view()[j].bounds != bounds,
            decreases nc - ci,
        {
            ci += 1;
        }
        proof {
            assert(ci < nc ==> self.chunks_view()[ci as int].bounds == bounds);
            lemma_chunk_index_agree(self.chunks_view(), bounds, ci as int);
        }
        if ci < nc && lsn < self.chunks[ci].info.latest_lsn {
            return Err(RangeInvariantError::OutOfOrderLsn);
        }
        if ti == n_rel {
            self.rel_remap.push(reltag_str);
            proof {
                assert(self.remap_view() =~= old(self).remap_view().push(tag));
                lemma_tag_index_basic(old(self).remap_view(), tag);
                assert forall|p: int, q: int|
                    0 <= p < q < self.remap_view().len() implies self.remap_view()[p]
                    != self.remap_view()[q] by {
                    if q == self.remap_view().len() - 1 {
                        assert(self.remap_view()[p] == old(self).remap_view()[p]);
                    }
                }
                assert(self.chunks_view() =~= old(self).chunks_view());
            }
        }
        self.store.insert(Key { relnum, blkno, lsn }, size);
        if ci < nc {
            let mut slot = self.chunks.remove(ci);
            slot.info.apply_write(lsn, size);
            self.chunks.insert(ci, slot);
            proof {
                assert(self.chunks_view() =~= old(self).chunks_view().update(
                    ci as int,
                    (SlotModel {
                        bounds,
                        info: chunk_step(old(self).chunks_view()[ci as int].info, lsn, size),
                    }),
                ));
            }
        } else {
            let mut info = ChunkInfo::new_for(lsn);
            info.apply_write(lsn, size);
            self.chunks.push(ChunkSlot { bounds, info });
            proof {
                assert(self.chunks_view() =~= old(self).chunks_view().push(
                    (SlotModel { bounds, info: chunk_step(fresh_chunk_info(lsn), lsn, size) }),
                ));
            }
        }
        Ok(())
    }
}

} // verus!
