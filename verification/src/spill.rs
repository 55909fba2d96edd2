//! The layer spill engine: derives, from the final store and chunk
//! watermarks, the delta-layer and full-layer files of every chunk — their
//! names and their lines — in one ordered pass per chunk.
use vstd::prelude::*;

use crate::chunk::{chunk_info_wf, in_chunk, ChunkBounds, ChunkInfo, ChunkInfoModel, SlotModel};
use crate::lsn::{lsn_fmt, lsn_seq};
use crate::numfmt::{dec_seq, dec_str};
use crate::store::{key_lt, sorted, Key, StoreEntry, VersionedStore};
use crate::Pageserver;

verus! {

/// One output layer file: its name and its lines, in scan order.
pub struct LayerFile {
    pub name: String,
    pub lines: Vec<String>,
}

/// Mathematical image of a layer file.
pub ghost struct LayerModel {
    pub name: Seq<char>,
    pub lines: Seq<Seq<char>>,
}

/// The views of a sequence of strings.
pub open spec fn strings_view(v: Seq<String>) -> Seq<Seq<char>> {
    Seq::new(v.len(), |i: int| v[i]@)
}

impl View for LayerFile {
    type V = LayerModel;

    open spec fn view(&self) -> LayerModel {
        LayerModel { name: self.name@, lines: strings_view(self.lines@) }
    }
}

/// The views of a sequence of layer files.
pub open spec fn layers_view(v: Seq<LayerFile>) -> Seq<LayerModel> {
    Seq::new(v.len(), |i: int| v[i]@)
}

/// The line recording one write: `<block> <lsn as HEX/HEX> <size>`.
pub open spec fn line_of(e: StoreEntry) -> Seq<char> {
    dec_seq(e.key.blkno as nat) + seq![' '] + lsn_seq(e.key.lsn) + seq![' '] + dec_seq(
        e.size as nat,
    )
}

/// The lines of a run of entries, in order.
pub open spec fn lines_of(ents: Seq<StoreEntry>) -> Seq<Seq<char>> {
    Seq::new(ents.len(), |i: int| line_of(ents[i]))
}

/// Delta-layer file name:
/// `<relation>-<chunkStart>-<chunkEnd>-<lsn1>:<lsn2>.delta`, all decimal.
pub open spec fn delta_name(b: ChunkBounds, lsn1: u64, lsn2: u64) -> Seq<char> {
    dec_seq(b.relnum as nat) + seq!['-'] + dec_seq(b.start as nat) + seq!['-'] + dec_seq(
        b.end as nat,
    ) + seq!['-'] + dec_seq(lsn1 as nat) + seq![':'] + dec_seq(lsn2 as nat) + seq![
        '.',
        'd',
        'e',
        'l',
        't',
        'a',
    ]
}

/// Full-layer file name: `<relation>-<chunkStart>-<chunkEnd>-<lsn>.layer`.
pub open spec fn full_name(b: ChunkBounds, lsn: u64) -> Seq<char> {
    dec_seq(b.relnum as nat) + seq!['-'] + dec_seq(b.start as nat) + seq!['-'] + dec_seq(
        b.end as nat,
    ) + seq!['-'] + dec_seq(lsn as nat) + seq!['.', 'l', 'a', 'y', 'e', 'r']
}

/// The boundary list made final for spilling: it must end at `latest`.
pub open spec fn finalize_marks(marks: Seq<u64>, latest: u64) -> Seq<u64> {
    if marks.len() > 0 && marks.last() == latest {
        marks
    } else {
        marks.push(latest)
    }
}

/// The full boundary sequence of a chunk: the spilled watermark, then every
/// boundary mark, ending at the latest LSN.
pub open spec fn boundaries(m: ChunkInfoModel) -> Seq<u64> {
    seq![m.s3_lsn] + finalize_marks(m.marks, m.latest_lsn)
}

/// The store entries of one chunk, in store order.
pub open spec fn chunk_entries(store: Seq<StoreEntry>, b: ChunkBounds) -> Seq<StoreEntry>
    decreases store.len(),
{
    if store.len() == 0 {
        Seq::empty()
    } else if in_chunk(b, store.last().key) {
        chunk_entries(store.drop_last(), b).push(store.last())
    } else {
        chunk_entries(store.drop_last(), b)
    }
}

/// The entries of one delta range: LSNs up to and including `lsn2`, from
/// `lsn1` — inclusive for the first range of a chunk (`incl_lo`), exclusive
/// for every later one, so that each write lands in exactly one delta layer.
pub open spec fn delta_entries(ents: Seq<StoreEntry>, lsn1: u64, lsn2: u64, incl_lo: bool) -> Seq<
    StoreEntry,
>
    decreases ents.len(),
{
    if ents.len() == 0 {
        Seq::empty()
    } else if (if incl_lo {
        lsn1 <= ents.last().key.lsn
    } else {
        lsn1 < ents.last().key.lsn
    }) && ents.last().key.lsn <= lsn2 {
        delta_entries(ents.drop_last(), lsn1, lsn2, incl_lo).push(ents.last())
    } else {
        delta_entries(ents.drop_last(), lsn1, lsn2, incl_lo)
    }
}

/// Whether entry `i` is the version of its block visible at snapshot LSN
/// `l`: written no later than `l`, and not superseded by a later version of
/// the same block at or before `l`.
pub open spec fn visible_at(ents: Seq<StoreEntry>, i: int, l: u64) -> bool {
    &&& ents[i].key.lsn <= l
    &&& (i + 1 < ents.len() && ents[i + 1].key.blkno == ents[i].key.blkno ==> l < ents[i
        + 1].key.lsn)
}

/// The entries visible at `l` among `ents[i..]`, in order.
pub open spec fn full_entries_from(ents: Seq<StoreEntry>, l: u64, i: int) -> Seq<StoreEntry>
    decreases ents.len() - i,
{
    if i < 0 || i >= ents.len() {
        Seq::empty()
    } else if visible_at(ents, i, l) {
        seq![ents[i]] + full_entries_from(ents, l, i + 1)
    } else {
        full_entries_from(ents, l, i + 1)
    }
}

/// The block-level snapshot of a chunk as of LSN `l`.
pub open spec fn full_entries(ents: Seq<StoreEntry>, l: u64) -> Seq<StoreEntry> {
    full_entries_from(ents, l, 0)
}

/// The delta layers of one chunk, one per adjacent boundary pair. The first
/// range includes its lower boundary (the spilled watermark); every later
/// range excludes it, since that LSN already belongs to the range before:
/// each write of the chunk goes to exactly one delta layer.
pub open spec fn delta_part(slot: SlotModel, store: Seq<StoreEntry>) -> Seq<LayerModel> {
    let bs = boundaries(slot.info);
    let ents = chunk_entries(store, slot.bounds);
    Seq::new(
        (bs.len() - 1) as nat,
        |j: int|
            LayerModel {
                name: delta_name(slot.bounds, bs[j], bs[j + 1]),
                lines: lines_of(delta_entries(ents, bs[j], bs[j + 1], j == 0)),
            },
    )
}

/// The full snapshot layers of one chunk, one at each upper boundary.
pub open spec fn full_part(slot: SlotModel, store: Seq<StoreEntry>) -> Seq<LayerModel> {
    let bs = boundaries(slot.info);
    let ents = chunk_entries(store, slot.bounds);
    Seq::new(
        (bs.len() - 1) as nat,
        |j: int|
            LayerModel {
                name: full_name(slot.bounds, bs[j + 1]),
                lines: lines_of(full_entries(ents, bs[j + 1])),
            },
    )
}

/// All the layers of one chunk: its delta layers, then its full layers; a
/// chunk with nothing to spill yields nothing.
pub open spec fn chunk_layers(slot: SlotModel, store: Seq<StoreEntry>) -> Seq<LayerModel> {
    if slot.info.latest_lsn == slot.info.s3_lsn {
        Seq::empty()
    } else {
        delta_part(slot, store) + full_part(slot, store)
    }
}

/// The layers of every chunk, in chunk-table order.
pub open spec fn spill_spec(chunks: Seq<SlotModel>, store: Seq<StoreEntry>) -> Seq<LayerModel>
    decreases chunks.len(),
{
    if chunks.len() == 0 {
        Seq::empty()
    } else {
        spill_spec(chunks.drop_last(), store) + chunk_layers(chunks.last(), store)
    }
}

/// Entries ordered by block, then by LSN, strictly.
pub open spec fn block_sorted(ents: Seq<StoreEntry>) -> bool {
    forall|i: int, j: int|
        0 <= i < j < ents.len() ==> (#[trigger] ents[i]).key.blkno < (#[trigger] ents[j]).key.blkno
            || (ents[i].key.blkno == ents[j].key.blkno && ents[i].key.lsn < ents[j].key.lsn)
}

/// Scanning a chunk's key range of a sorted store yields its writes in
/// ascending block order, ascending LSN within a block — each write of the
/// chunk exactly once, and nothing else.
proof fn lemma_chunk_entries_bound(store: Seq<StoreEntry>, b: ChunkBounds, kk: Key)
    requires
        forall|y: int| 0 <= y < store.len() ==> key_lt((#[trigger] store[y]).key, kk),
    ensures
        forall|x: int|
            0 <= x < chunk_entries(store, b).len() ==> key_lt(
                (#[trigger] chunk_entries(store, b)[x]).key,
                kk,
            ),
    decreases store.len(),
{
    if store.len() > 0 {
        let s2 = store.drop_last();
        assert(forall|y: int| 0 <= y < s2.len() ==> s2[y] == store[y]);
        lemma_chunk_entries_bound(s2, b, kk);
        let ce = chunk_entries(store, b);
        let ce2 = chunk_entries(s2, b);
        if in_chunk(b, store.last().key) {
            assert(ce == ce2.push(store.last()));
            assert(store.last() == store[store.len() - 1]);
            assert forall|x: int| 0 <= x < ce.len() implies key_lt(
                (#[trigger] ce[x]).key,
                kk,
            ) by {
                if x < ce2.len() {
                    assert(ce[x] == ce2[x]);
                } else {
                    assert(ce[x] == store[store.len() - 1]);
                }
            }
        } else {
            assert(ce == ce2);
        }
    }
}

proof fn lemma_chunk_entries_key_sorted(store: Seq<StoreEntry>, b: ChunkBounds)
    requires
        sorted(store),
    ensures
        forall|x1: int, x2: int|
            0 <= x1 < x2 < chunk_entries(store, b).len() ==> key_lt(
                (#[trigger] chunk_entries(store, b)[x1]).key,
                (#[trigger] chunk_entries(store, b)[x2]).key,
            ),
        forall|x: int|
            0 <= x < chunk_entries(store, b).len() ==> in_chunk(
                b,
                (#[trigger] chunk_entries(store, b)[x]).key,
            ),
    decreases store.len(),
{
    let ce = chunk_entries(store, b);
    if store.len() > 0 {
        let s2 = store.drop_last();
        let ce2 = chunk_entries(s2, b);
        assert(forall|i: int, j: int|
            0 <= i < j < s2.len() ==> key_lt(#[trigger] s2[i].key, #[trigger] s2[j].key));
        lemma_chunk_entries_key_sorted(s2, b);
        if in_chunk(b, store.last().key) {
            assert(forall|y: int|
                0 <= y < s2.len() ==> key_lt((#[trigger] s2[y]).key, store.last().key));
            lemma_chunk_entries_bound(s2, b, store.last().key);
            assert(ce == ce2.push(store.last()));
            assert(forall|x: int| 0 <= x < ce2.len() ==> ce[x] == ce2[x]);
        }
    }
}

proof fn lemma_chunk_entries_members(store: Seq<StoreEntry>, b: ChunkBounds)
    ensures
        forall|x: int|
            0 <= x < chunk_entries(store, b).len() ==> exists|y: int|
                0 <= y < store.len() && (#[trigger] chunk_entries(store, b)[x]) == store[y],
    decreases store.len(),
{
    let ce = chunk_entries(store, b);
    if store.len() > 0 {
        let s2 = store.drop_last();
        let ce2 = chunk_entries(s2, b);
        lemma_chunk_entries_members(s2, b);
        assert forall|x: int| 0 <= x < ce.len() implies exists|y: int|
            0 <= y < store.len() && (#[trigger] ce[x]) == store[y] by {
            if x < ce2.len() {
                assert(ce[x] == ce2[x]);
                let y = choose|y: int| 0 <= y < s2.len() && ce2[x] == s2[y];
                assert(ce[x] == store[y]);
            } else {
                assert(ce[x] == store[store.len() - 1]);
            }
        }
    }
}

proof fn lemma_chunk_entries_complete(store: Seq<StoreEntry>, b: ChunkBounds)
    ensures
        forall|y: int|
            0 <= y < store.len() && in_chunk(b, (#[trigger] store[y]).key) ==> exists|x: int|
                0 <= x < chunk_entries(store, b).len() && chunk_entries(store, b)[x] == store[y],
    decreases store.len(),
{
    let ce = chunk_entries(store, b);
    if store.len() > 0 {
        let s2 = store.drop_last();
        let ce2 = chunk_entries(s2, b);
        lemma_chunk_entries_complete(s2, b);
        assert forall|y: int|
            0 <= y < store.len() && in_chunk(b, (#[trigger] store[y]).key) implies exists|x: int|
            0 <= x < ce.len() && ce[x] == store[y] by {
            if y < store.len() - 1 {
                let x = choose|x: int| 0 <= x < ce2.len() && ce2[x] == s2[y];
                assert(ce[x] == store[y]);
            } else {
                assert(ce[ce.len() - 1] == store[y]);
            }
        }
    }
}

/// Scanning a chunk's key range of a sorted store yields its writes in
/// ascending block order, ascending LSN within a block — each write of the
/// chunk exactly once, and nothing else.
#[verifier::rlimit(100)]
pub proof fn lemma_chunk_scan_ordered(store: Seq<StoreEntry>, b: ChunkBounds)
    requires
        sorted(store),
    ensures
        block_sorted(chunk_entries(store, b)),
        forall|x: int|
            0 <= x < chunk_entries(store, b).len() ==> in_chunk(
                b,
                (#[trigger] chunk_entries(store, b)[x]).key,
            ),
        forall|x: int|
            0 <= x < chunk_entries(store, b).len() ==> exists|y: int|
                0 <= y < store.len() && (#[trigger] chunk_entries(store, b)[x]) == store[y],
        forall|y: int|
            0 <= y < store.len() && in_chunk(b, (#[trigger] store[y]).key) ==> exists|x: int|
                0 <= x < chunk_entries(store, b).len() && chunk_entries(store, b)[x] == store[y],
{
    let ce = chunk_entries(store, b);
    lemma_chunk_entries_key_sorted(store, b);
    lemma_chunk_entries_members(store, b);
    lemma_chunk_entries_complete(store, b);
    assert forall|i: int, j: int| 0 <= i < j < ce.len() implies (#[trigger] ce[i]).key.blkno < (
    #[trigger] ce[j]).key.blkno || (ce[i].key.blkno == ce[j].key.blkno && ce[i].key.lsn
        < ce[j].key.lsn) by {
        assert(key_lt(ce[i].key, ce[j].key));
        assert(in_chunk(b, ce[i].key) && in_chunk(b, ce[j].key));
    }
}

proof fn lemma_cover(bs: Seq<u64>, lsn: u64)
    requires
        bs.len() >= 2,
        forall|i: int, j: int| 0 <= i < j < bs.len() ==> bs[i] < bs[j],
        bs[0] <= lsn <= bs.last(),
    ensures
        exists|j: int| 0 <= j < bs.len() - 1 && (#[trigger] bs[j]) <= lsn <= bs[j + 1],
    decreases bs.len(),
{
    if lsn <= bs[1] {
        assert(bs[0] <= lsn <= bs[0int + 1]);
    } else {
        let b2 = bs.drop_first();
        assert(forall|i: int| 0 <= i < b2.len() ==> b2[i] == bs[i + 1]);
        assert(b2.last() == bs.last());
        lemma_cover(b2, lsn);
        let j2 = choose|j: int| 0 <= j < b2.len() - 1 && (#[trigger] b2[j]) <= lsn <= b2[j + 1];
        assert(bs[j2 + 1] <= lsn <= bs[j2 + 2]);
    }
}

/// The delta-layer boundary list of a chunk with pending history starts at
/// the spilled watermark, ends at the latest LSN, is strictly increasing,
/// and its adjacent pairs cover `[s3_lsn, latest_lsn]` without gaps.
pub proof fn lemma_boundary_coverage(m: ChunkInfoModel)
    requires
        chunk_info_wf(m),
        m.s3_lsn < m.latest_lsn,
    ensures
        boundaries(m).len() >= 2,
        boundaries(m)[0] == m.s3_lsn,
        boundaries(m).last() == m.latest_lsn,
        forall|i: int, j: int| 0 <= i < j < boundaries(m).len() ==> boundaries(m)[i] < boundaries(m)[j],
{
    let bs = boundaries(m);
    let fm = finalize_marks(m.marks, m.latest_lsn);
    assert(bs[0] == m.s3_lsn);
    assert forall|i: int, j: int| 0 <= i < j < bs.len() implies bs[i] < bs[j] by {
        if i > 0 {
            assert(bs[i] == fm[i - 1] && bs[j] == fm[j - 1]);
            if m.marks.len() > 0 && m.marks.last() == m.latest_lsn {
            } else {
                if j - 1 < m.marks.len() {
                    assert(fm[i - 1] == m.marks[i - 1] && fm[j - 1] == m.marks[j - 1]);
                } else if i - 1 < m.marks.len() {
                    assert(fm[i - 1] == m.marks[i - 1] && fm[j - 1] == m.latest_lsn);
                    assert(m.marks[i - 1] <= m.marks.last());
                }
            }
        } else {
            assert(bs[j] == fm[j - 1]);
            if j - 1 < m.marks.len() {
                assert(m.s3_lsn < m.marks[0] <= m.marks[j - 1]);
            }
        }
    }
    assert(bs.last() == fm.last());
    assert(fm.last() == m.latest_lsn);
}

/// Every LSN of `[s3_lsn, latest_lsn]` falls inside some adjacent boundary
/// pair: the delta layers' ranges cover the pending history with no gap,
/// overlapping only at shared endpoints.
pub proof fn lemma_boundary_covers_lsn(m: ChunkInfoModel, lsn: u64)
    requires
        chunk_info_wf(m),
        m.s3_lsn < m.latest_lsn,
        m.s3_lsn <= lsn <= m.latest_lsn,
    ensures
        exists|j: int|
            0 <= j < boundaries(m).len() - 1 && (#[trigger] boundaries(m)[j]) <= lsn
                <= boundaries(m)[j + 1],
{
    lemma_boundary_coverage(m);
    lemma_cover(boundaries(m), lsn);
}

proof fn lemma_full_from_elem_at(ents: Seq<StoreEntry>, l: u64, i: int, x: int)
    requires
        0 <= x < full_entries_from(ents, l, i).len(),
    ensures
        exists|k: int|
            i <= k < ents.len() && visible_at(ents, k, l) && full_entries_from(ents, l, i)[x]
                == #[trigger] ents[k],
    decreases ents.len() - i,
{
    let ff = full_entries_from(ents, l, i);
    let rest = full_entries_from(ents, l, i + 1);
    if visible_at(ents, i, l) {
        assert(ff == seq![ents[i]] + rest);
        if x == 0 {
            assert(i <= i < ents.len() && visible_at(ents, i, l) && ff[0] == ents[i]);
        } else {
            lemma_full_from_elem_at(ents, l, i + 1, x - 1);
            let k = choose|k: int|
                i + 1 <= k < ents.len() && visible_at(ents, k, l) && rest[x - 1]
                    == #[trigger] ents[k];
            assert(i <= k < ents.len() && visible_at(ents, k, l) && ff[x] == ents[k]);
        }
    } else {
        assert(ff == rest);
        lemma_full_from_elem_at(ents, l, i + 1, x);
        let k = choose|k: int|
            i + 1 <= k < ents.len() && visible_at(ents, k, l) && rest[x] == #[trigger] ents[k];
        assert(i <= k < ents.len() && visible_at(ents, k, l) && ff[x] == ents[k]);
    }
}

proof fn lemma_full_from_complete_at(ents: Seq<StoreEntry>, l: u64, i: int, k: int)
    requires
        0 <= i <= k < ents.len(),
        visible_at(ents, k, l),
    ensures
        exists|x: int|
            0 <= x < full_entries_from(ents, l, i).len() && (#[trigger] full_entries_from(
                ents,
                l,
                i,
            )[x]) == ents[k],
    decreases ents.len() - i,
{
    let ff = full_entries_from(ents, l, i);
    let rest = full_entries_from(ents, l, i + 1);
    if visible_at(ents, i, l) {
        assert(ff == seq![ents[i]] + rest);
        if k == i {
            assert(0 <= 0 < ff.len() && ff[0] == ents[i]);
        } else {
            lemma_full_from_complete_at(ents, l, i + 1, k);
            let x = choose|x: int| 0 <= x < rest.len() && (#[trigger] rest[x]) == ents[k];
            assert(0 <= x + 1 < ff.len() && ff[x + 1] == ents[k]);
        }
    } else {
        assert(ff == rest);
        assert(k != i);
        lemma_full_from_complete_at(ents, l, i + 1, k);
        let x = choose|x: int| 0 <= x < rest.len() && (#[trigger] rest[x]) == ents[k];
        assert(0 <= x < ff.len() && ff[x] == ents[k]);
    }
}

/// Transfers a strict (block, LSN) lower bound over `ents[i..]` to the
/// visible entries drawn from them.
proof fn lemma_full_from_bound(ents: Seq<StoreEntry>, l: u64, i: int, e0: StoreEntry)
    requires
        forall|k: int|
            i <= k < ents.len() ==> e0.key.blkno < (#[trigger] ents[k]).key.blkno || (e0.key.blkno
                == ents[k].key.blkno && e0.key.lsn < ents[k].key.lsn),
    ensures
        forall|x: int|
            0 <= x < full_entries_from(ents, l, i).len() ==> e0.key.blkno < (
            #[trigger] full_entries_from(ents, l, i)[x]).key.blkno || (e0.key.blkno
                == full_entries_from(ents, l, i)[x].key.blkno && e0.key.lsn < full_entries_from(
                ents,
                l,
                i,
            )[x].key.lsn),
    decreases ents.len() - i,
{
    let ff = full_entries_from(ents, l, i);
    if i < 0 || i >= ents.len() {
    } else {
        lemma_full_from_bound(ents, l, i + 1, e0);
        let rest = full_entries_from(ents, l, i + 1);
        if visible_at(ents, i, l) {
            assert(ff == seq![ents[i]] + rest);
            assert(ff[0] == ents[i]);
            assert(forall|x: int| 1 <= x < ff.len() ==> ff[x] == rest[x - 1]);
        }
    }
}

proof fn lemma_full_from_sorted(ents: Seq<StoreEntry>, l: u64, i: int)
    requires
        block_sorted(ents),
    ensures
        block_sorted(full_entries_from(ents, l, i)),
    decreases ents.len() - i,
{
    let ff = full_entries_from(ents, l, i);
    if i < 0 || i >= ents.len() {
    } else {
        lemma_full_from_sorted(ents, l, i + 1);
        let rest = full_entries_from(ents, l, i + 1);
        if visible_at(ents, i, l) {
            assert(ff == seq![ents[i]] + rest);
            assert(forall|k: int|
                i + 1 <= k < ents.len() ==> ents[i].key.blkno < (#[trigger] ents[k]).key.blkno || (
                ents[i].key.blkno == ents[k].key.blkno && ents[i].key.lsn < ents[k].key.lsn));
            lemma_full_from_bound(ents, l, i + 1, ents[i]);
            assert(ff[0] == ents[i]);
            assert(forall|x: int| 1 <= x < ff.len() ==> ff[x] == rest[x - 1]);
            assert forall|x1: int, x2: int| 0 <= x1 < x2 < ff.len() implies (
            #[trigger] ff[x1]).key.blkno < (#[trigger] ff[x2]).key.blkno || (ff[x1].key.blkno
                == ff[x2].key.blkno && ff[x1].key.lsn < ff[x2].key.lsn) by {
                if x1 > 0 {
                    assert(ff[x1] == rest[x1 - 1] && ff[x2] == rest[x2 - 1]);
                }
            }
        } else {
            assert(ff == rest);
        }
    }
}

proof fn lemma_visible_unique(ents: Seq<StoreEntry>, l: u64, k1: int, k2: int)
    requires
        block_sorted(ents),
        0 <= k1 <= k2 < ents.len(),
        visible_at(ents, k1, l),
        visible_at(ents, k2, l),
        ents[k1].key.blkno == ents[k2].key.blkno,
    ensures
        k1 == k2,
{
    if k1 < k2 {
        assert(ents[k1].key.blkno <= ents[k1 + 1].key.blkno <= ents[k2].key.blkno);
        assert(ents[k1 + 1].key.blkno == ents[k1].key.blkno);
        assert(l < ents[k1 + 1].key.lsn);
        if k1 + 1 < k2 {
            assert(ents[k1 + 1].key.lsn < ents[k2].key.lsn);
        }
        assert(ents[k2].key.lsn > l);
    }
}

#[verifier::rlimit(100)]
proof fn lemma_visible_exists(ents: Seq<StoreEntry>, l: u64, k0: int)
    requires
        block_sorted(ents),
        0 <= k0 < ents.len(),
        ents[k0].key.lsn <= l,
    ensures
        exists|k: int|
            0 <= k < ents.len() && (#[trigger] ents[k]).key.blkno == ents[k0].key.blkno
                && visible_at(ents, k, l) && (forall|m: int|
                0 <= m < ents.len() && (#[trigger] ents[m]).key.blkno == ents[k0].key.blkno
                    && ents[m].key.lsn <= l ==> ents[m].key.lsn <= ents[k].key.lsn),
    decreases ents.len() - k0,
{
    if visible_at(ents, k0, l) {
        assert forall|m: int|
            0 <= m < ents.len() && (#[trigger] ents[m]).key.blkno == ents[k0].key.blkno
                && ents[m].key.lsn <= l implies ents[m].key.lsn <= ents[k0].key.lsn by {
            if m > k0 {
                assert(ents[k0].key.blkno <= ents[k0 + 1].key.blkno <= ents[m].key.blkno);
                assert(ents[k0 + 1].key.blkno == ents[k0].key.blkno);
                assert(l < ents[k0 + 1].key.lsn);
                if k0 + 1 < m {
                    assert(ents[k0 + 1].key.lsn < ents[m].key.lsn);
                }
            }
        }
        assert(0 <= k0 < ents.len() && ents[k0].key.blkno == ents[k0].key.blkno && visible_at(
            ents,
            k0,
            l,
        ) && (forall|m: int|
            0 <= m < ents.len() && (#[trigger] ents[m]).key.blkno == ents[k0].key.blkno
                && ents[m].key.lsn <= l ==> ents[m].key.lsn <= ents[k0].key.lsn));
    } else {
        assert(k0 + 1 < ents.len() && ents[k0 + 1].key.blkno == ents[k0].key.blkno && ents[k0
            + 1].key.lsn <= l);
        lemma_visible_exists(ents, l, k0 + 1);
        let k = choose|k: int|
            0 <= k < ents.len() && (#[trigger] ents[k]).key.blkno == ents[k0 + 1].key.blkno
                && visible_at(ents, k, l) && (forall|m: int|
                0 <= m < ents.len() && (#[trigger] ents[m]).key.blkno == ents[k0 + 1].key.blkno
                    && ents[m].key.lsn <= l ==> ents[m].key.lsn <= ents[k].key.lsn);
        assert(ents[k].key.blkno == ents[k0].key.blkno && visible_at(ents, k, l) && (forall|m: int|
            0 <= m < ents.len() && (#[trigger] ents[m]).key.blkno == ents[k0].key.blkno
                && ents[m].key.lsn <= l ==> ents[m].key.lsn <= ents[k].key.lsn));
    }
}

/// Full-layer correctness: in the snapshot at LSN `l` of a block-ordered
/// run of writes, no line is newer than `l`, and every block written at or
/// before `l` appears exactly once — as its write with the greatest LSN at
/// or before `l`.
#[verifier::rlimit(100)]
pub proof fn lemma_full_layer_correct(ents: Seq<StoreEntry>, l: u64)
    requires
        block_sorted(ents),
    ensures
        forall|x: int|
            0 <= x < full_entries(ents, l).len() ==> (#[trigger] full_entries(ents, l)[x]).key.lsn
                <= l,
        forall|k0: int|
            0 <= k0 < ents.len() && (#[trigger] ents[k0]).key.lsn <= l ==> exists|x: int|
                0 <= x < full_entries(ents, l).len() && (#[trigger] full_entries(ents, l)[x]).key.blkno
                    == ents[k0].key.blkno && (forall|m: int|
                    0 <= m < ents.len() && (#[trigger] ents[m]).key.blkno == ents[k0].key.blkno
                        && ents[m].key.lsn <= l ==> ents[m].key.lsn <= full_entries(ents, l)[x].key.lsn)
                    && (forall|x2: int|
                    0 <= x2 < full_entries(ents, l).len() && (#[trigger] full_entries(ents, l)[x2]).key.blkno
                        == ents[k0].key.blkno ==> x2 == x),
{
    let f = full_entries(ents, l);
    lemma_full_from_sorted(ents, l, 0);
    assert forall|x: int| 0 <= x < f.len() implies (#[trigger] f[x]).key.lsn <= l by {
        lemma_full_from_elem_at(ents, l, 0, x);
        let k = choose|k: int|
            0 <= k < ents.len() && visible_at(ents, k, l) && f[x] == #[trigger] ents[k];
    }
    assert forall|k0: int|
        0 <= k0 < ents.len() && (#[trigger] ents[k0]).key.lsn <= l implies exists|x: int|
        0 <= x < f.len() && (#[trigger] f[x]).key.blkno == ents[k0].key.blkno && (forall|m: int|
            0 <= m < ents.len() && (#[trigger] ents[m]).key.blkno == ents[k0].key.blkno
                && ents[m].key.lsn <= l ==> ents[m].key.lsn <= f[x].key.lsn) && (forall|x2: int|
            0 <= x2 < f.len() && (#[trigger] f[x2]).key.blkno == ents[k0].key.blkno ==> x2
                == x) by {
        lemma_visible_exists(ents, l, k0);
        let k = choose|k: int|
            0 <= k < ents.len() && (#[trigger] ents[k]).key.blkno == ents[k0].key.blkno
                && visible_at(ents, k, l) && (forall|m: int|
                0 <= m < ents.len() && (#[trigger] ents[m]).key.blkno == ents[k0].key.blkno
                    && ents[m].key.lsn <= l ==> ents[m].key.lsn <= ents[k].key.lsn);
        lemma_full_from_complete_at(ents, l, 0, k);
        let x = choose|x: int| 0 <= x < f.len() && (#[trigger] f[x]) == ents[k];
        assert forall|x2: int|
            0 <= x2 < f.len() && (#[trigger] f[x2]).key.blkno == ents[k0].key.blkno implies x2
            == x by {
            lemma_full_from_elem_at(ents, l, 0, x2);
            let k2 = choose|k2: int|
                0 <= k2 < ents.len() && visible_at(ents, k2, l) && f[x2] == #[trigger] ents[k2];
            if k2 <= k {
                lemma_visible_unique(ents, l, k2, k);
            } else {
                lemma_visible_unique(ents, l, k, k2);
            }
            assert(f[x2] == f[x]);
            if x2 < x {
                assert(f[x2].key.blkno < f[x].key.blkno || (f[x2].key.blkno == f[x].key.blkno
                    && f[x2].key.lsn < f[x].key.lsn));
            } else if x < x2 {
                assert(f[x].key.blkno < f[x2].key.blkno || (f[x].key.blkno == f[x2].key.blkno
                    && f[x].key.lsn < f[x2].key.lsn));
            }
        }
        assert(0 <= x < f.len() && f[x].key.blkno == ents[k0].key.blkno && (forall|m: int|
            0 <= m < ents.len() && (#[trigger] ents[m]).key.blkno == ents[k0].key.blkno
                && ents[m].key.lsn <= l ==> ents[m].key.lsn <= f[x].key.lsn));
    }
}

/// Formats the line recording one write.
pub fn entry_line(e: &StoreEntry) -> (r: String)
    ensures
        r@ == line_of(*e),
{
    let mut r = dec_str(e.key.blkno as u64);
    r.append(" ");
    let lsn_text = lsn_fmt(e.key.lsn);
    r.append(lsn_text.as_str());
    r.append(" ");
    let size_text = dec_str(e.size as u64);
    r.append(size_text.as_str());
    proof {
        reveal_strlit(" ");
        assert(r@ =~= line_of(*e));
    }
    r
}

/// Builds a delta layer's file name.
pub fn delta_layer_name(b: &ChunkBounds, lsn1: u64, lsn2: u64) -> (r: String)
    ensures
        r@ == delta_name(*b, lsn1, lsn2),
{
    let mut r = dec_str(b.relnum as u64);
    r.append("-");
    let t1 = dec_str(b.start as u64);
    r.append(t1.as_str());
    r.append("-");
    let t2 = dec_str(b.end as u64);
    r.append(t2.as_str());
    r.append("-");
    let t3 = dec_str(lsn1);
    r.append(t3.as_str());
    r.append(":");
    let t4 = dec_str(lsn2);
    r.append(t4.as_str());
    r.append(".delta");
    proof {
        reveal_strlit("-");
        reveal_strlit(":");
        reveal_strlit(".delta");
        assert(r@ =~= delta_name(*b, lsn1, lsn2));
    }
    r
}

/// Builds a full layer's file name.
pub fn full_layer_name(b: &ChunkBounds, lsn: u64) -> (r: String)
    ensures
        r@ == full_name(*b, lsn),
{
    let mut r = dec_str(b.relnum as u64);
    r.append("-");
    let t1 = dec_str(b.start as u64);
    r.append(t1.as_str());
    r.append("-");
    let t2 = dec_str(b.end as u64);
    r.append(t2.as_str());
    r.append("-");
    let t3 = dec_str(lsn);
    r.append(t3.as_str());
    r.append(".layer");
    proof {
        reveal_strlit("-");
        reveal_strlit(".layer");
        assert(r@ =~= full_name(*b, lsn));
    }
    r
}

/// Collects the store entries of one chunk, in store order.
fn chunk_range_entries(store: &VersionedStore, b: &ChunkBounds) -> (r: Vec<StoreEntry>)
    ensures
        r@ == chunk_entries(store@, *b),
{
    let mut r: Vec<StoreEntry> = Vec::new();
    let n = store.len();
    let mut i: usize = 0;
    proof {
        assert(r@ =~= chunk_entries(store@.take(0), *b));
    }
    while i < n
        invariant
            0 <= i <= n,
            n == store@.len(),
            r@ == chunk_entries(store@.take(i as int), *b),
        decreases n - i,
    {
        let e = store.entries[i];
        proof {
            assert(store@.take(i + 1).drop_last() =~= store@.take(i as int));
            assert(store@.take(i + 1).last() == store@[i as int]);
        }
        if b.relnum == e.key.relnum && b.start <= e.key.blkno && e.key.blkno < b.end {
            r.push(e);
        }
        i += 1;
    }
    proof {
        assert(store@.take(n as int) =~= store@);
    }
    r
}

/// Formats the lines of a delta layer: LSNs in `[lsn1, lsn2]` when
/// `incl_lo`, in `(lsn1, lsn2]` otherwise.
fn delta_lines(ents: &Vec<StoreEntry>, lsn1: u64, lsn2: u64, incl_lo: bool) -> (r: Vec<String>)
    ensures
        strings_view(r@) == lines_of(delta_entries(ents@, lsn1, lsn2, incl_lo)),
{
    let mut r: Vec<String> = Vec::new();
    let n = ents.len();
    let mut i: usize = 0;
    proof {
        assert(strings_view(r@) =~= lines_of(delta_entries(ents@.take(0), lsn1, lsn2, incl_lo)));
    }
    while i < n
        invariant
            0 <= i <= n,
            n == ents@.len(),
            strings_view(r@) == lines_of(delta_entries(ents@.take(i as int), lsn1, lsn2, incl_lo)),
        decreases n - i,
    {
        let e = ents[i];
        proof {
            assert(ents@.take(i + 1).drop_last() =~= ents@.take(i as int));
            assert(ents@.take(i + 1).last() == ents@[i as int]);
        }
        let lo_ok = if incl_lo {
            lsn1 <= e.key.lsn
        } else {
            lsn1 < e.key.lsn
        };
        if lo_ok && e.key.lsn <= lsn2 {
            let line = entry_line(&e);
            let ghost prev = r@;
            r.push(line);
            proof {
                assert(r@ == prev.push(line));
                assert(delta_entries(ents@.take(i + 1), lsn1, lsn2, incl_lo) == delta_entries(
                    ents@.take(i as int),
                    lsn1,
                    lsn2,
                    incl_lo,
                ).push(ents@[i as int]));
                assert(strings_view(prev.push(line)) =~= strings_view(prev).push(line@));
                assert(lines_of(
                    delta_entries(ents@.take(i as int), lsn1, lsn2, incl_lo).push(
                        ents@[i as int],
                    ),
                ) =~= lines_of(delta_entries(ents@.take(i as int), lsn1, lsn2, incl_lo)).push(
                    line_of(ents@[i as int]),
                ));
                assert(strings_view(r@) =~= lines_of(
                    delta_entries(ents@.take(i + 1), lsn1, lsn2, incl_lo),
                ));
            }
        } else {
            proof {
                assert(strings_view(r@) =~= lines_of(
                    delta_entries(ents@.take(i + 1), lsn1, lsn2, incl_lo),
                ));
            }
        }
        i += 1;
    }
    proof {
        assert(ents@.take(n as int) =~= ents@);
    }
    r
}

/// Formats the lines of a full layer at snapshot LSN `l`: one line per
/// visible version, in scan order.
fn full_lines(ents: &Vec<StoreEntry>, l: u64) -> (r: Vec<String>)
    ensures
        strings_view(r@) == lines_of(full_entries(ents@, l)),
{
    let mut r: Vec<String> = Vec::new();
    let n = ents.len();
    let mut i: usize = 0;
    while i < n
        invariant
            0 <= i <= n,
            n == ents@.len(),
            lines_of(full_entries(ents@, l)) == strings_view(r@) + lines_of(
                full_entries_from(ents@, l, i as int),
            ),
        decreases n - i,
    {
        let e = ents[i];
        let visible = e.key.lsn <= l && !(i + 1 < n && ents[i + 1].key.blkno == e.key.blkno
            && ents[i + 1].key.lsn <= l);
        proof {
            assert(visible == visible_at(ents@, i as int, l));
        }
        if visible {
            let line = entry_line(&e);
            r.push(line);
            proof {
                assert(full_entries_from(ents@, l, i as int) == seq![ents@[i as int]]
                    + full_entries_from(ents@, l, i + 1));
                assert(lines_of(
                    seq![ents@[i as int]] + full_entries_from(ents@, l, i + 1),
                ) =~= seq![line_of(ents@[i as int])] + lines_of(
                    full_entries_from(ents@, l, i + 1),
                ));
                assert(strings_view(r@) =~= strings_view(r@.drop_last()) + seq![line@]);
                assert(lines_of(full_entries(ents@, l)) =~= strings_view(r@) + lines_of(
                    full_entries_from(ents@, l, i + 1),
                ));
            }
        } else {
            proof {
                assert(full_entries_from(ents@, l, i as int) == full_entries_from(
                    ents@,
                    l,
                    i + 1,
                ));
            }
        }
        i += 1;
    }
    proof {
        assert(full_entries_from(ents@, l, n as int) =~= Seq::<StoreEntry>::empty());
        assert(lines_of(Seq::<StoreEntry>::empty()) =~= Seq::<Seq<char>>::empty());
        assert(lines_of(full_entries(ents@, l)) =~= strings_view(r@));
    }
    r
}

/// The chunk's boundary list made final: marks, extended by the latest LSN
/// when the marks do not already end there.
fn finalized_marks(info: &ChunkInfo) -> (r: Vec<u64>)
    ensures
        r@ == finalize_marks(info@.marks, info@.latest_lsn),
{
    let mut r: Vec<u64> = Vec::new();
    let n = info.layer_lsn_marks.len();
    let mut i: usize = 0;
    while i < n
        invariant
            0 <= i <= n,
            n == info.layer_lsn_marks@.len(),
            r@ == info.layer_lsn_marks@.take(i as int),
        decreases n - i,
    {
        let m = info.layer_lsn_marks[i];
        r.push(m);
        proof {
            assert(r@ =~= info.layer_lsn_marks@.take(i + 1));
        }
        i += 1;
    }
    proof {
        assert(r@ =~= info.layer_lsn_marks@);
    }
    if n == 0 || r[n - 1] != info.latest_lsn {
        r.push(info.latest_lsn);
    }
    r
}

/// The full boundary sequence of a chunk, `[s3_lsn] ++ finalized marks`.
fn boundary_list(info: &ChunkInfo) -> (r: Vec<u64>)
    ensures
        r@ == boundaries(info@),
        r@.len() >= 2,
{
    let mut r: Vec<u64> = Vec::new();
    r.push(info.s3_lsn);
    let marks = finalized_marks(info);
    let n = marks.len();
    let mut i: usize = 0;
    while i < n
        invariant
            0 <= i <= n,
            n == marks@.len(),
            r@ == seq![info@.s3_lsn] + marks@.take(i as int),
        decreases n - i,
    {
        let m = marks[i];
        r.push(m);
        proof {
            assert(r@ =~= seq![info@.s3_lsn] + marks@.take(i + 1));
        }
        i += 1;
    }
    proof {
        assert(marks@.take(n as int) =~= marks@);
        assert(r@ =~= boundaries(info@));
    }
    r
}

impl Pageserver {
    /// Derives every chunk's layer files from the accumulated store and the
    /// chunk watermarks: per chunk with pending history, one delta layer per
    /// adjacent boundary pair and one full snapshot layer at each pair's
    /// upper boundary, filled by one ordered pass over the chunk's key
    /// range.
    pub fn spill_layers(&self) -> (r: Vec<LayerFile>)
        requires
            self.wf(),
        ensures
            layers_view(r@) == spill_spec(self.chunks_view(), self.store@),
    {
        let mut out: Vec<LayerFile> = Vec::new();
        let nc = self.chunks.len();
        let mut ci: usize = 0;
        proof {
            assert(layers_view(out@) =~= spill_spec(self.chunks_view().take(0), self.store@));
        }
        while ci < nc
            invariant
                0 <= ci <= nc,
                nc == self.chunks_view().len(),
                nc == self.chunks@.len(),
                layers_view(out@) == spill_spec(self.chunks_view().take(ci as int), self.store@),
            decreases nc - ci,
        {
            proof {
                assert(self.chunks_view().take(ci + 1).drop_last() =~= self.chunks_view().take(
                    ci as int,
                ));
                assert(self.chunks_view().take(ci + 1).last() == self.chunks_view()[ci as int]);
            }
            let ghost slot_m = self.chunks_view()[ci as int];
            let bounds = self.chunks[ci].bounds;
            proof {
                assert(slot_m.bounds == bounds);
                assert(slot_m.info == self.chunks@[ci as int].info@);
            }
            if self.chunks[ci].info.latest_lsn == self.chunks[ci].info.s3_lsn {
                proof {
                    assert(chunk_layers(slot_m, self.store@) =~= Seq::<LayerModel>::empty());
                    assert(layers_view(out@) =~= spill_spec(
                        self.chunks_view().take(ci + 1),
                        self.store@,
                    ));
                }
            } else {
                let bs = boundary_list(&self.chunks[ci].info);
                let ents = chunk_range_entries(&self.store, &bounds);
                let nb = bs.len();
                let mut j: usize = 1;
                proof {
                    assert(delta_part(slot_m, self.store@).take(0) =~= Seq::<LayerModel>::empty());
                    assert(layers_view(out@) =~= spill_spec(
                        self.chunks_view().take(ci as int),
                        self.store@,
                    ) + delta_part(slot_m, self.store@).take(0));
                }
                while j < nb
                    invariant
                        1 <= j <= nb,
                        nb == bs@.len(),
                        bs@ == boundaries(slot_m.info),
                        ents@ == chunk_entries(self.store@, slot_m.bounds),
                        bounds == slot_m.bounds,
                        layers_view(out@) == spill_spec(
                            self.chunks_view().take(ci as int),
                            self.store@,
                        ) + delta_part(slot_m, self.store@).take(j - 1),
                    decreases nb - j,
                {
                    let name = delta_layer_name(&bounds, bs[j - 1], bs[j]);
                    let lines = delta_lines(&ents, bs[j - 1], bs[j], j == 1);
                    let ghost prev = out@;
                    let lf = LayerFile { name, lines };
                    proof {
                        assert(lf@ == delta_part(slot_m, self.store@)[j - 1]);
                    }
                    out.push(lf);
                    proof {
                        assert(layers_view(prev.push(
                            (LayerFile { name, lines }),
                        )) =~= layers_view(prev).push(delta_part(slot_m, self.store@)[j - 1]));
                        assert(delta_part(slot_m, self.store@).take(j as int) =~= delta_part(
                            slot_m,
                            self.store@,
                        ).take(j - 1).push(delta_part(slot_m, self.store@)[j - 1]));
                        assert(layers_view(out@) =~= spill_spec(
                            self.chunks_view().take(ci as int),
                            self.store@,
                        ) + delta_part(slot_m, self.store@).take(j as int));
                    }
                    j += 1;
                }
                proof {
                    assert(delta_part(slot_m, self.store@).take(nb - 1) =~= delta_part(
                        slot_m,
                        self.store@,
                    ));
                    assert(full_part(slot_m, self.store@).take(0) =~= Seq::<LayerModel>::empty());
                    assert(layers_view(out@) =~= spill_spec(
                        self.chunks_view().take(ci as int),
                        self.store@,
                    ) + delta_part(slot_m, self.store@) + full_part(slot_m, self.store@).take(0));
                }
                let mut k: usize = 1;
                while k < nb
                    invariant
                        1 <= k <= nb,
                        nb == bs@.len(),
                        bs@ == boundaries(slot_m.info),
                        ents@ == chunk_entries(self.store@, slot_m.bounds),
                        bounds == slot_m.bounds,
                        layers_view(out@) == spill_spec(
                            self.chunks_view().take(ci as int),
                            self.store@,
                        ) + delta_part(slot_m, self.store@) + full_part(slot_m, self.store@).take(
                            k - 1,
                        ),
                    decreases nb - k,
                {
                    let name = full_layer_name(&bounds, bs[k]);
                    let lines = full_lines(&ents, bs[k]);
                    let ghost prev = out@;
                    let lf = LayerFile { name, lines };
                    proof {
                        assert(lf@ == full_part(slot_m, self.store@)[k - 1]);
                    }
                    out.push(lf);
                    proof {
                        assert(layers_view(prev.push(
                            (LayerFile { name, lines }),
                        )) =~= layers_view(prev).push(full_part(slot_m, self.store@)[k - 1]));
                        assert(full_part(slot_m, self.store@).take(k as int) =~= full_part(
                            slot_m,
                            self.store@,
                        ).take(k - 1).push(full_part(slot_m, self.store@)[k - 1]));
                        assert(layers_view(out@) =~= spill_spec(
                            self.chunks_view().take(ci as int),
                            self.store@,
                        ) + delta_part(slot_m, self.store@) + full_part(slot_m, self.store@).take(
                            k as int,
                        ));
                    }
                    k += 1;
                }
                proof {
                    assert(full_part(slot_m, self.store@).take(nb - 1) =~= full_part(
                        slot_m,
                        self.store@,
                    ));
                    assert(chunk_layers(slot_m, self.store@) == delta_part(slot_m, self.store@)
                        + full_part(slot_m, self.store@));
                    assert(layers_view(out@) =~= spill_spec(
                        self.chunks_view().take(ci + 1),
                        self.store@,
                    ));
                }
            }
            ci += 1;
        }
        proof {
            assert(self.chunks_view().take(nc as int) =~= self.chunks_view());
        }
        out
    }
}

} // verus!
