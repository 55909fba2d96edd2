use kv::chunk::ChunkBounds;
use kv::errors::{ParseError, RangeInvariantError};
use kv::lsn::{lsn_fmt, lsn_from_str};
use kv::numfmt::{dec_str, hex_str, parse_dec_u32, parse_hex_u32};
use kv::Pageserver;

const MIB: u32 = 1024 * 1024;

fn ingest(ps: &mut Pageserver, tag: &str, blkno: u32, lsn: u64, size: u32) {
    ps.add_wal_record(tag.to_string(), blkno, lsn, size)
        .expect("write rejected");
}

#[test]
fn chunk_bounds_cover_their_block() {
    let ps = Pageserver::new();
    let b = ps.page_to_bounds(7, 2560);
    assert_eq!(
        b,
        ChunkBounds {
            relnum: 7,
            start: 2560,
            end: 3840
        }
    );
    let b2 = ps.page_to_bounds(1, 1279);
    assert_eq!(b2.start, 0);
    assert_eq!(b2.end, 1280);
    let b3 = ps.page_to_bounds(1, 1280);
    assert_eq!(b3.start, 1280);
    assert_eq!(b3.end, 2560);
    assert!(b3.start <= 1280 && 1280 < b3.end);
    assert_eq!(b3.end - b3.start, 1280);
}

#[test]
fn key_range_of_chunk() {
    let b = ChunkBounds {
        relnum: 3,
        start: 1280,
        end: 2560,
    };
    let (lo, hi) = b.as_key_range();
    assert_eq!((lo.relnum, lo.blkno, lo.lsn), (3, 1280, 0));
    assert_eq!((hi.relnum, hi.blkno, hi.lsn), (3, 2560, 0));
}

#[test]
fn lsn_formats_canonically() {
    assert_eq!(lsn_fmt(0), "0/0");
    assert_eq!(lsn_fmt(10), "0/A");
    assert_eq!(lsn_fmt(0x16B374D848), "16/B374D848");
    assert_eq!(lsn_fmt(u64::MAX), "FFFFFFFF/FFFFFFFF");
}

#[test]
fn lsn_parses_and_round_trips() {
    assert_eq!(lsn_from_str("16/B374D848"), Ok(0x16B374D848));
    assert_eq!(lsn_from_str("0/0"), Ok(0));
    assert_eq!(lsn_from_str("FFFFFFFF/FFFFFFFF"), Ok(u64::MAX));
    // parse then format reproduces canonical text
    let s = "1A2B/3C4D5E6F";
    assert_eq!(lsn_fmt(lsn_from_str(s).unwrap()), s);
    // format then parse gives the value back
    let v = 0xDEAD_BEEF_0123u64;
    assert_eq!(lsn_from_str(&lsn_fmt(v)), Ok(v));
}

#[test]
fn lsn_rejects_malformed_text() {
    assert_eq!(lsn_from_str(""), Err(ParseError::BadLsn));
    assert_eq!(lsn_from_str("123"), Err(ParseError::BadLsn));
    assert_eq!(lsn_from_str("1/2/3"), Err(ParseError::BadLsn));
    assert_eq!(lsn_from_str("x/1"), Err(ParseError::BadLsn));
    assert_eq!(lsn_from_str("1/"), Err(ParseError::BadLsn));
    assert_eq!(lsn_from_str("/1"), Err(ParseError::BadLsn));
    // a group over 32 bits does not fit
    assert_eq!(lsn_from_str("100000000/0"), Err(ParseError::BadLsn));
}

#[test]
fn numerals_format_and_parse_exactly() {
    assert_eq!(dec_str(0), "0");
    assert_eq!(dec_str(4194304), "4194304");
    assert_eq!(hex_str(0), "0");
    assert_eq!(hex_str(255), "FF");
    assert_eq!(hex_str(0x1632440), "1632440");
    assert_eq!(parse_dec_u32("123"), Some(123));
    assert_eq!(parse_dec_u32("4294967295"), Some(u32::MAX));
    assert_eq!(parse_dec_u32("4294967296"), None);
    assert_eq!(parse_dec_u32("12a"), None);
    assert_eq!(parse_dec_u32(""), None);
    assert_eq!(parse_hex_u32("ff"), Some(255));
    assert_eq!(parse_hex_u32("FF"), Some(255));
    assert_eq!(parse_hex_u32("g"), None);
}

#[test]
fn parses_a_waldump_line() {
    let ps = Pageserver::new();
    let line = "rmgr: Heap        len (rec/tot):     54/    54, tx:        580, \
                lsn: 0/01632440, prev 0/016323F8, desc: INSERT off 3 flags 0x00, \
                blkref #0: rel 1663/13757/16385 blk 7"
        .to_string();
    let entries = ps.parse_waldump_line(&line).unwrap();
    assert_eq!(entries.len(), 1);
    assert_eq!(entries[0].reltag_str, "1663/13757/16385");
    assert_eq!(entries[0].blkno, 7);
    assert_eq!(entries[0].lsn, 0x01632440);
    assert_eq!(entries[0].size, 54);
}

#[test]
fn parses_fork_suffix_and_multiple_blkrefs() {
    let ps = Pageserver::new();
    let line = "rmgr: XLOG len (rec/tot): 80/ 80, tx: 0, lsn: 1/00000028, prev 0/0, \
                desc: CHECKPOINT, blkref #0: rel 1663/1/2 fork fsm blk 2, \
                blkref #1: rel 1663/1/3 blk 9"
        .to_string();
    let entries = ps.parse_waldump_line(&line).unwrap();
    assert_eq!(entries.len(), 2);
    assert_eq!(entries[0].reltag_str, "1663/1/2.fsm");
    assert_eq!(entries[0].blkno, 2);
    assert_eq!(entries[1].reltag_str, "1663/1/3");
    assert_eq!(entries[1].blkno, 9);
    assert_eq!(entries[1].lsn, 0x1_00000028);
    assert_eq!(entries[1].size, 80);
}

#[test]
fn parse_errors_identify_the_field() {
    let ps = Pageserver::new();
    let short = "rmgr: Heap len".to_string();
    assert_eq!(ps.parse_waldump_line(&short), Err(ParseError::MissingField));
    let bad_size = "a b c d e nope, g h lsn: 0/10, k l m n o p".to_string();
    assert_eq!(ps.parse_waldump_line(&bad_size), Err(ParseError::BadSize));
    let bad_lsn = "a b c d e 54, g h lsn: zz, k l m n o p".to_string();
    assert_eq!(ps.parse_waldump_line(&bad_lsn), Err(ParseError::BadLsn));
    let truncated = "a b c d e 54, g h lsn: 0/10, blkref #0: rel".to_string();
    assert_eq!(
        ps.parse_waldump_line(&truncated),
        Err(ParseError::MissingField)
    );
    let bad_blk = "a b c d e 54, g h lsn: 0/10, blkref #0: rel 1/2/3 blk xx".to_string();
    assert_eq!(ps.parse_waldump_line(&bad_blk), Err(ParseError::BadBlock));
    // zero block references is not an error
    let no_refs = "a b c d e 54, g h lsn: 0/10, nothing else here".to_string();
    assert_eq!(ps.parse_waldump_line(&no_refs).unwrap().len(), 0);
}

#[test]
fn writes_are_rejected_exactly_when_invalid() {
    let mut ps = Pageserver::new();
    assert_eq!(
        ps.add_wal_record("a".to_string(), 1, 10, 0),
        Err(RangeInvariantError::ZeroSize)
    );
    ingest(&mut ps, "a", 1, 10, 100);
    // a write below its own chunk's latest LSN would regress the watermark
    assert_eq!(
        ps.add_wal_record("a".to_string(), 2, 9, 100),
        Err(RangeInvariantError::OutOfOrderLsn)
    );
    // an equal LSN is fine
    assert!(ps.add_wal_record("a".to_string(), 2, 10, 100).is_ok());
    // a chunk not yet written accepts any LSN: another relation, or a block
    // in a different chunk of the same relation
    assert!(ps.add_wal_record("b".to_string(), 1, 3, 100).is_ok());
    assert!(ps.add_wal_record("a".to_string(), 9000, 4, 100).is_ok());
    // recording never moves the run cursor; that is the caller's job
    assert_eq!(ps.current_lsn, 0);
}

#[test]
fn remap_assigns_ids_in_first_seen_order() {
    let mut ps = Pageserver::new();
    ingest(&mut ps, "rel_b", 1, 10, 100);
    ingest(&mut ps, "rel_a", 1, 20, 100);
    ingest(&mut ps, "rel_b", 2, 30, 100);
    assert_eq!(ps.rel_remap, vec!["rel_b".to_string(), "rel_a".to_string()]);
    // rel_b's writes carry id 1, rel_a's id 2, stable across the run
    let rels: Vec<u32> = ps.store.entries.iter().map(|e| e.key.relnum).collect();
    assert_eq!(rels, vec![1, 1, 2]);
}

#[test]
fn store_iterates_in_key_order() {
    let mut ps = Pageserver::new();
    ingest(&mut ps, "b", 9, 10, 100);
    ingest(&mut ps, "a", 3, 20, 100);
    ingest(&mut ps, "b", 2, 30, 100);
    ingest(&mut ps, "b", 9, 40, 100);
    let keys: Vec<(u32, u32, u64)> = ps
        .store
        .entries
        .iter()
        .map(|e| (e.key.relnum, e.key.blkno, e.key.lsn))
        .collect();
    // relation ascending, then block ascending, then LSN ascending
    assert_eq!(keys, vec![(1, 2, 30), (1, 9, 10), (1, 9, 40), (2, 3, 20)]);
}

#[test]
fn three_writes_one_boundary_mark() {
    // Three writes to block 5 at LSNs 10, 20, 30 of 4 MiB each: the second
    // write's cumulative 8 MiB does not cross the 10 MiB threshold, the
    // third (12 MiB) does.
    let mut ps = Pageserver::new();
    ingest(&mut ps, "a", 5, 10, 4 * MIB);
    ingest(&mut ps, "a", 5, 20, 4 * MIB);
    assert_eq!(ps.chunks[0].info.layer_lsn_marks, Vec::<u64>::new());
    ingest(&mut ps, "a", 5, 30, 4 * MIB);
    assert_eq!(ps.chunks[0].info.layer_lsn_marks, vec![30]);
    assert_eq!(ps.chunks[0].info.wal_size_since_last_layer, 0);

    let layers = ps.spill_layers();
    assert_eq!(layers.len(), 2);
    assert_eq!(layers[0].name, "1-0-1280-0:30.delta");
    assert_eq!(
        layers[0].lines,
        vec![
            "5 0/A 4194304".to_string(),
            "5 0/14 4194304".to_string(),
            "5 0/1E 4194304".to_string(),
        ]
    );
    assert_eq!(layers[1].name, "1-0-1280-30.layer");
    assert_eq!(layers[1].lines, vec!["5 0/1E 4194304".to_string()]);
}

#[test]
fn full_layer_keeps_unsuperseded_versions() {
    // Two blocks in one chunk, each written once, no size-triggered cut:
    // one delta layer [0, 15] with both lines, one full layer at 15 with
    // both versions (block 1 stays visible through infinity).
    let mut ps = Pageserver::new();
    ingest(&mut ps, "a", 1, 5, 100);
    ingest(&mut ps, "a", 2, 15, 200);
    let layers = ps.spill_layers();
    assert_eq!(layers.len(), 2);
    assert_eq!(layers[0].name, "1-0-1280-0:15.delta");
    assert_eq!(
        layers[0].lines,
        vec!["1 0/5 100".to_string(), "2 0/F 200".to_string()]
    );
    assert_eq!(layers[1].name, "1-0-1280-15.layer");
    assert_eq!(
        layers[1].lines,
        vec!["1 0/5 100".to_string(), "2 0/F 200".to_string()]
    );
}

#[test]
fn two_marks_give_two_delta_layers() {
    let mut ps = Pageserver::new();
    ingest(&mut ps, "a", 1, 10, 11 * MIB);
    assert_eq!(ps.chunks[0].info.layer_lsn_marks, vec![10]);
    ingest(&mut ps, "a", 1, 20, 11 * MIB);
    assert_eq!(ps.chunks[0].info.layer_lsn_marks, vec![10, 20]);
    let layers = ps.spill_layers();
    // marks already end at the latest LSN: two deltas, two fulls
    assert_eq!(layers.len(), 4);
    assert_eq!(layers[0].name, "1-0-1280-0:10.delta");
    assert_eq!(layers[0].lines, vec![format!("1 0/A {}", 11 * MIB)]);
    assert_eq!(layers[1].name, "1-0-1280-10:20.delta");
    // the write at the shared boundary 10 belongs to the first layer alone:
    // later ranges exclude their lower boundary
    assert_eq!(layers[1].lines, vec![format!("1 0/14 {}", 11 * MIB)]);
    assert_eq!(layers[2].name, "1-0-1280-10.layer");
    assert_eq!(layers[2].lines, vec![format!("1 0/A {}", 11 * MIB)]);
    assert_eq!(layers[3].name, "1-0-1280-20.layer");
    assert_eq!(layers[3].lines, vec![format!("1 0/14 {}", 11 * MIB)]);
}

#[test]
fn chunks_spill_independently() {
    let mut ps = Pageserver::new();
    ingest(&mut ps, "a", 5, 10, 100);
    ingest(&mut ps, "a", 1290, 20, 200);
    let layers = ps.spill_layers();
    let names: Vec<&str> = layers.iter().map(|l| l.name.as_str()).collect();
    assert_eq!(
        names,
        vec![
            "1-0-1280-0:10.delta",
            "1-0-1280-10.layer",
            "1-1280-2560-0:20.delta",
            "1-1280-2560-20.layer",
        ]
    );
}

#[test]
fn nothing_pending_spills_nothing() {
    // A chunk whose only write sits at LSN 0 has latest == s3 and is
    // skipped; no boundary mark is cut at the watermark either.
    let mut ps = Pageserver::new();
    ingest(&mut ps, "a", 1, 0, 20 * MIB);
    assert_eq!(ps.chunks[0].info.layer_lsn_marks, Vec::<u64>::new());
    assert_eq!(ps.spill_layers().len(), 0);
    // the empty store spills nothing at all
    let fresh = Pageserver::new();
    assert_eq!(fresh.spill_layers().len(), 0);
}
