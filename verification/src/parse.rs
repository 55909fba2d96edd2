//! The line parser: turns one textual write-log line into the write entries
//! it describes — shared size and LSN, plus one entry per block reference.
use vstd::prelude::*;

use crate::errors::ParseError;
use crate::lsn::{lsn_from_str, lsn_text_val, lsn_text_wf};
use crate::numfmt::{all_dec, dec_val, parse_dec_u32};
use crate::Pageserver;

verus! {

/// One write entry parsed from a log line: the referenced relation tag and
/// block, with the line's shared LSN and byte size.
#[derive(Debug, PartialEq, Eq)]
pub struct WalDumpEntry {
    pub reltag_str: String,
    pub blkno: u32,
    pub lsn: u64,
    pub size: u32,
}

pub ghost struct WalDumpEntryModel {
    pub reltag: Seq<char>,
    pub blkno: u32,
    pub lsn: u64,
    pub size: u32,
}

impl View for WalDumpEntry {
    type V = WalDumpEntryModel;

    open spec fn view(&self) -> WalDumpEntryModel {
        WalDumpEntryModel {
            reltag: self.reltag_str@,
            blkno: self.blkno,
            lsn: self.lsn,
            size: self.size,
        }
    }
}

pub open spec fn entries_view(v: Seq<WalDumpEntry>) -> Seq<WalDumpEntryModel> {
    Seq::new(v.len(), |i: int| v[i]@)
}

pub open spec fn tokens_view(v: Seq<&str>) -> Seq<Seq<char>> {
    Seq::new(v.len(), |i: int| v[i]@)
}

/// Splitting on single spaces, dropping empty tokens: the tokens of
/// `s[i..]`, where `cur` holds the partial token read so far.
pub open spec fn split_from(s: Seq<char>, i: int, cur: Seq<char>) -> Seq<Seq<char>>
    decreases s.len() - i,
{
    if i < 0 || i >= s.len() {
        if cur.len() > 0 {
            seq![cur]
        } else {
            Seq::empty()
        }
    } else if s[i] == ' ' {
        if cur.len() > 0 {
            seq![cur] + split_from(s, i + 1, Seq::empty())
        } else {
            split_from(s, i + 1, Seq::empty())
        }
    } else {
        split_from(s, i + 1, cur.push(s[i]))
    }
}

/// The nonempty space-separated tokens of a line.
pub open spec fn split_tokens(s: Seq<char>) -> Seq<Seq<char>> {
    split_from(s, 0, Seq::empty())
}

/// The token with its trailing commas removed.
pub open spec fn trim_commas(t: Seq<char>) -> Seq<char>
    decreases t.len(),
{
    if t.len() > 0 && t.last() == ',' {
        trim_commas(t.drop_last())
    } else {
        t
    }
}

/// A token that denotes an unsigned 32-bit decimal number.
pub open spec fn dec_u32_ok(t: Seq<char>) -> bool {
    t.len() > 0 && all_dec(t) && dec_val(t) <= u32::MAX
}

pub open spec fn blkref_token() -> Seq<char> {
    seq!['b', 'l', 'k', 'r', 'e', 'f']
}

pub open spec fn fork_token() -> Seq<char> {
    seq!['f', 'o', 'r', 'k']
}

/// Scans tokens from position `i` for block references. Each reference is
/// the marker token, then (two tokens later) a relation locator — extended
/// by `.` and a fork name when a fork suffix follows — and a block number.
/// A truncated reference or a bad block number fails the whole line.
pub open spec fn scan_refs(ts: Seq<Seq<char>>, i: int, lsn: u64, size: u32) -> Result<
    Seq<WalDumpEntryModel>,
    ParseError,
>
    decreases ts.len() - i,
{
    if i < 0 {
        Err(ParseError::MissingField)
    } else if i >= ts.len() {
        Ok(Seq::empty())
    } else if ts[i] != blkref_token() {
        scan_refs(ts, i + 1, lsn, size)
    } else if i + 5 >= ts.len() {
        Err(ParseError::MissingField)
    } else if ts[i + 4] == fork_token() {
        if i + 7 >= ts.len() {
            Err(ParseError::MissingField)
        } else {
            let reltag = ts[i + 3] + seq!['.'] + ts[i + 5];
            let btok = trim_commas(ts[i + 7]);
            if dec_u32_ok(btok) {
                match scan_refs(ts, i + 8, lsn, size) {
                    Ok(rest) => Ok(
                        seq![
                            WalDumpEntryModel {
                                reltag,
                                blkno: dec_val(btok) as u32,
                                lsn,
                                size,
                            },
                        ] + rest,
                    ),
                    Err(e) => Err(e),
                }
            } else {
                Err(ParseError::BadBlock)
            }
        }
    } else {
        let reltag = ts[i + 3];
        let btok = trim_commas(ts[i + 5]);
        if dec_u32_ok(btok) {
            match scan_refs(ts, i + 6, lsn, size) {
                Ok(rest) => Ok(
                    seq![
                        WalDumpEntryModel { reltag, blkno: dec_val(btok) as u32, lsn, size },
                    ] + rest,
                ),
                Err(e) => Err(e),
            }
        } else {
            Err(ParseError::BadBlock)
        }
    }
}

/// What one log line means: the comma-trimmed sixth token is the decimal
/// size, the comma-trimmed tenth token the `HEX/HEX` LSN, and every block
/// reference contributes one entry carrying both.
pub open spec fn parse_line_spec(ts: Seq<Seq<char>>) -> Result<Seq<WalDumpEntryModel>, ParseError> {
    if ts.len() <= 5 {
        Err(ParseError::MissingField)
    } else {
        let stok = trim_commas(ts[5]);
        if !dec_u32_ok(stok) {
            Err(ParseError::BadSize)
        } else if ts.len() <= 9 {
            Err(ParseError::MissingField)
        } else {
            let ltok = trim_commas(ts[9]);
            if !lsn_text_wf(ltok) {
                Err(ParseError::BadLsn)
            } else {
                scan_refs(ts, 1, lsn_text_val(ltok), dec_val(stok) as u32)
            }
        }
    }
}

pub open spec fn parse_result_view(r: Result<Vec<WalDumpEntry>, ParseError>) -> Result<
    Seq<WalDumpEntryModel>,
    ParseError,
> {
    match r {
        Ok(v) => Ok(entries_view(v@)),
        Err(e) => Err(e),
    }
}

/// Exec string equality on views.
fn str_eq_rt(a: &str, b: &str) -> (r: bool)
    ensures
        r == (a@ == b@),
{
    let na = a.unicode_len();
    let nb = b.unicode_len();
    if na != nb {
        proof {
            assert(a@ != b@);
        }
        return false;
    }
    let mut i: usize = 0;
    while i < na
        invariant
            0 <= i <= na,
            na == a@.len(),
            na == b@.len(),
            forall|j: int| 0 <= j < i ==> a@[j] == b@[j],
        decreases na - i,
    {
        if a.get_char(i) != b.get_char(i) {
            proof {
                assert(a@[i as int] != b@[i as int]);
            }
            return false;
        }
        i += 1;
    }
    proof {
        assert(a@ =~= b@);
    }
    true
}

proof fn lemma_split_run(s: Seq<char>, a: int, m: int, b: int)
    requires
        0 <= a <= m <= b <= s.len(),
        a < b,
        forall|x: int| a <= x < b ==> s[x] != ' ',
        b == s.len() || s[b] == ' ',
    ensures
        split_from(s, m, s.subrange(a, m)) == seq![s.subrange(a, b)] + split_from(
            s,
            b,
            Seq::empty(),
        ),
    decreases b - m,
{
    if m == b {
        if b == s.len() {
            assert(split_from(s, m, s.subrange(a, m)) == seq![s.subrange(a, b)]);
            assert(split_from(s, b, Seq::<char>::empty()) =~= Seq::<Seq<char>>::empty());
            assert(seq![s.subrange(a, b)] + Seq::<Seq<char>>::empty() =~= seq![
                s.subrange(a, b),
            ]);
        } else {
            assert(s[b] == ' ');
            assert(split_from(s, m, s.subrange(a, m)) == seq![s.subrange(a, b)] + split_from(
                s,
                b + 1,
                Seq::empty(),
            ));
            assert(split_from(s, b, Seq::<char>::empty()) == split_from(s, b + 1, Seq::empty()));
        }
    } else {
        assert(s[m] != ' ');
        assert(s.subrange(a, m).push(s[m]) =~= s.subrange(a, m + 1));
        lemma_split_run(s, a, m + 1, b);
    }
}

/// Collects the nonempty space-separated tokens of a line.
fn tokenize<'a>(line: &'a str) -> (r: Vec<&'a str>)
    ensures
        tokens_view(r@) == split_tokens(line@),
{
    let n = line.unicode_len();
    let mut toks: Vec<&'a str> = Vec::new();
    let mut i: usize = 0;
    proof {
        assert(tokens_view(toks@) =~= Seq::<Seq<char>>::empty());
        assert(Seq::<Seq<char>>::empty() + split_from(line@, 0, Seq::empty()) =~= split_tokens(
            line@,
        ));
    }
    while i < n
        invariant
            0 <= i <= n,
            n == line@.len(),
            tokens_view(toks@) + split_from(line@, i as int, Seq::empty()) == split_tokens(line@),
        decreases n - i,
    {
        let c = line.get_char(i);
        if c == ' ' {
            proof {
                assert(split_from(line@, i as int, Seq::empty()) == split_from(
                    line@,
                    i + 1,
                    Seq::empty(),
                ));
            }
            i += 1;
        } else {
            let start = i;
            let mut j = i + 1;
            while j < n && line.get_char(j) != ' '
                invariant
                    start < j <= n,
                    n == line@.len(),
                    forall|m: int| start <= m < j ==> line@[m] != ' ',
                decreases n - j,
            {
                j += 1;
            }
            let tok = line.substring_char(start, j);
            let ghost prev = toks@;
            toks.push(tok);
            proof {
                assert(tok@ == line@.subrange(start as int, j as int));
                assert(line@.subrange(start as int, start as int) =~= Seq::<char>::empty());
                lemma_split_run(line@, start as int, start as int, j as int);
                assert(tokens_view(prev.push(tok)) =~= tokens_view(prev).push(tok@));
                assert(tokens_view(toks@) + split_from(line@, j as int, Seq::empty())
                    =~= tokens_view(prev) + (seq![tok@] + split_from(line@, j as int, Seq::empty())));
                assert(tokens_view(toks@) + split_from(line@, j as int, Seq::empty())
                    == split_tokens(line@));
            }
            i = j;
        }
    }
    proof {
        assert(split_from(line@, n as int, Seq::empty()) =~= Seq::<Seq<char>>::empty());
        assert(tokens_view(toks@) =~= tokens_view(toks@) + Seq::<Seq<char>>::empty());
    }
    toks
}

proof fn lemma_trim_take(s: Seq<char>, e: int)
    requires
        0 <= e <= s.len(),
        forall|m: int| e <= m < s.len() ==> s[m] == ',',
        e > 0 ==> s[e - 1] != ',',
    ensures
        trim_commas(s) == s.take(e),
    decreases s.len(),
{
    if s.len() == e {
        assert(s.take(e) =~= s);
    } else {
        assert(s.last() == ',');
        assert(forall|m: int| e <= m < s.drop_last().len() ==> s.drop_last()[m] == ',');
        assert(e > 0 ==> s.drop_last()[e - 1] == s[e - 1]);
        lemma_trim_take(s.drop_last(), e);
        assert(s.drop_last().take(e) =~= s.take(e));
    }
}

/// Removes the token's trailing commas.
fn trim_commas_rt<'a>(t: &'a str) -> (r: &'a str)
    ensures
        r@ == trim_commas(t@),
{
    let n = t.unicode_len();
    let mut e = n;
    while e > 0 && t.get_char(e - 1) == ','
        invariant
            0 <= e <= n,
            n == t@.len(),
            forall|m: int| e <= m < n ==> t@[m] == ',',
        decreases e,
    {
        e -= 1;
    }
    let r = t.substring_char(0, e);
    proof {
        lemma_trim_take(t@, e as int);
        assert(r@ =~= t@.take(e as int));
    }
    r
}

impl Pageserver {
    /// Parses one write-log line: one entry per block reference, each
    /// carrying the line's shared size and LSN; a line that does not match
    /// the grammar is rejected as a whole.
    pub fn parse_waldump_line(&self, line: &String) -> (r: Result<Vec<WalDumpEntry>, ParseError>)
        ensures
            parse_result_view(r) == parse_line_spec(split_tokens(line@)),
    {
        let parts = tokenize(line.as_str());
        let ghost ts = split_tokens(line@);
        proof {
            assert(ts == tokens_view(parts@));
        }
        if parts.len() <= 5 {
            return Err(ParseError::MissingField);
        }
        let stok = trim_commas_rt(parts[5]);
        let size = match parse_dec_u32(stok) {
            Some(v) => v,
            None => {
                return Err(ParseError::BadSize);
            },
        };
        if parts.len() <= 9 {
            return Err(ParseError::MissingField);
        }
        let ltok = trim_commas_rt(parts[9]);
        let lsn = match lsn_from_str(ltok) {
            Ok(v) => v,
            Err(_) => {
                return Err(ParseError::BadLsn);
            },
        };
        let n = parts.len();
        let mut out: Vec<WalDumpEntry> = Vec::new();
        let mut i: usize = 1;
        proof {
            assert(stok@ == trim_commas(ts[5]));
            assert(ltok@ == trim_commas(ts[9]));
            assert(parse_line_spec(ts) == scan_refs(ts, 1, lsn, size));
            assert(entries_view(out@) =~= Seq::<WalDumpEntryModel>::empty());
            assert(scan_refs(ts, 1, lsn, size) is Ok ==> scan_refs(ts, 1, lsn, size)->Ok_0
                =~= entries_view(out@) + scan_refs(ts, 1, lsn, size)->Ok_0);
        }
        while i < n
            invariant
                1 <= i <= n,
                n == parts@.len(),
                ts == tokens_view(parts@),
                ts == split_tokens(line@),
                parse_line_spec(ts) == scan_refs(ts, 1, lsn, size),
                scan_refs(ts, 1, lsn, size) == match scan_refs(ts, i as int, lsn, size) {
                    Ok(rest) => Ok::<Seq<WalDumpEntryModel>, ParseError>(
                        entries_view(out@) + rest,
                    ),
                    Err(e) => Err::<Seq<WalDumpEntryModel>, ParseError>(e),
                },
            decreases n - i,
        {
            let is_ref = str_eq_rt(parts[i], "blkref");
            proof {
                reveal_strlit("blkref");
                assert("blkref"@ =~= blkref_token());
            }
            if !is_ref {
                proof {
                    assert(scan_refs(ts, i as int, lsn, size) == scan_refs(
                        ts,
                        i + 1,
                        lsn,
                        size,
                    ));
                }
                i += 1;
                continue;
            }
            if n - i <= 5 {
                proof {
                    assert(scan_refs(ts, i as int, lsn, size) == Err::<
                        Seq<WalDumpEntryModel>,
                        ParseError,
                    >(ParseError::MissingField));
                }
                return Err(ParseError::MissingField);
            }
            let is_fork = str_eq_rt(parts[i + 4], "fork");
            proof {
                reveal_strlit("fork");
                assert("fork"@ =~= fork_token());
            }
            let mut reltag_str = String::from_str(parts[i + 3]);
            let btok_pos: usize;
            let step: usize;
            if is_fork {
                if n - i <= 7 {
                    proof {
                        assert(scan_refs(ts, i as int, lsn, size) == Err::<
                            Seq<WalDumpEntryModel>,
                            ParseError,
                        >(ParseError::MissingField));
                    }
                    return Err(ParseError::MissingField);
                }
                reltag_str.append(".");
                reltag_str.append(parts[i + 5]);
                proof {
                    reveal_strlit(".");
                    assert(reltag_str@ =~= ts[i as int + 3] + seq!['.'] + ts[i as int + 5]);
                }
                btok_pos = i + 7;
                step = 8;
            } else {
                btok_pos = i + 5;
                step = 6;
            }
            let btok = trim_commas_rt(parts[btok_pos]);
            proof {
                assert(btok@ == trim_commas(ts[btok_pos as int]));
            }
            let blkno = match parse_dec_u32(btok) {
                Some(v) => v,
                None => {
                    proof {
                        assert(!dec_u32_ok(trim_commas(ts[btok_pos as int])));
                        assert(scan_refs(ts, i as int, lsn, size) == Err::<
                            Seq<WalDumpEntryModel>,
                            ParseError,
                        >(ParseError::BadBlock));
                    }
                    return Err(ParseError::BadBlock);
                },
            };
            let entry = WalDumpEntry { reltag_str, blkno, lsn, size };
            let ghost prev = out@;
            out.push(entry);
            proof {
                let gi = i as int;
                let rest0 = scan_refs(ts, gi + step, lsn, size);
                assert(scan_refs(ts, gi, lsn, size) == match rest0 {
                    Ok(rest) => Ok::<Seq<WalDumpEntryModel>, ParseError>(
                        seq![entry@] + rest,
                    ),
                    Err(e) => Err::<Seq<WalDumpEntryModel>, ParseError>(e),
                });
                assert(entries_view(prev.push(entry)) =~= entries_view(prev).push(entry@));
                if rest0 is Ok {
                    assert(entries_view(prev) + (seq![entry@] + rest0->Ok_0) =~= entries_view(
                        out@,
                    ) + rest0->Ok_0);
                }
            }
            i += step;
        }
        proof {
            assert(scan_refs(ts, n as int, lsn, size) == Ok::<
                Seq<WalDumpEntryModel>,
                ParseError,
            >(Seq::empty()));
            assert(entries_view(out@) + Seq::<WalDumpEntryModel>::empty() =~= entries_view(out@));
        }
        Ok(out)
    }
}

} // verus!
