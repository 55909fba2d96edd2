//! Log sequence numbers: a 64-bit position, written textually as two
//! uppercase hexadecimal groups `HIGH/LOW`, each covering 32 bits.
use vstd::prelude::*;

use crate::errors::ParseError;
use crate::numfmt::{
    all_hex, hex_canonical, hex_digit_val, hex_seq, hex_val, hex_str, is_hex_digit,
    lemma_hex_canonical_roundtrip, lemma_hex_seq_canonical, lemma_hex_seq_val, parse_hex_u32,
};

verus! {

/// The weight of the high hexadecimal group: 2^32.
pub const LSN_GROUP: u64 = 0x1_0000_0000;

pub open spec fn lsn_hi(lsn: u64) -> nat {
    (lsn as nat) / 0x1_0000_0000
}

pub open spec fn lsn_lo(lsn: u64) -> nat {
    (lsn as nat) % 0x1_0000_0000
}

/// The canonical text of an LSN: `HIGH/LOW`, uppercase hex, no padding.
pub open spec fn lsn_seq(lsn: u64) -> Seq<char> {
    hex_seq(lsn_hi(lsn)) + seq!['/'] + hex_seq(lsn_lo(lsn))
}

/// Index of the first `/` in `s`; `s.len()` if there is none.
pub open spec fn find_slash(s: Seq<char>) -> int
    decreases s.len(),
{
    if s.len() == 0 {
        0
    } else if s[0] == '/' {
        0
    } else {
        1 + find_slash(s.drop_first())
    }
}

/// Well-formed LSN text: exactly one `/`, with a 32-bit hexadecimal group on
/// each side.
pub open spec fn lsn_text_wf(s: Seq<char>) -> bool {
    let k = find_slash(s);
    &&& k < s.len()
    &&& forall|i: int| k < i < s.len() ==> s[i] != '/'
    &&& s.take(k).len() > 0
    &&& all_hex(s.take(k))
    &&& hex_val(s.take(k)) <= u32::MAX
    &&& s.skip(k + 1).len() > 0
    &&& all_hex(s.skip(k + 1))
    &&& hex_val(s.skip(k + 1)) <= u32::MAX
}

/// The value well-formed LSN text denotes.
pub open spec fn lsn_text_val(s: Seq<char>) -> u64 {
    (hex_val(s.take(find_slash(s))) * 0x1_0000_0000 + hex_val(
        s.skip(find_slash(s) + 1),
    )) as u64
}

/// Canonical LSN text: well-formed and both groups canonical uppercase hex.
pub open spec fn lsn_text_canonical(s: Seq<char>) -> bool {
    &&& lsn_text_wf(s)
    &&& hex_canonical(s.take(find_slash(s)))
    &&& hex_canonical(s.skip(find_slash(s) + 1))
}

pub proof fn lemma_find_slash_basic(s: Seq<char>)
    ensures
        0 <= find_slash(s) <= s.len(),
        find_slash(s) < s.len() ==> s[find_slash(s)] == '/',
        forall|i: int| 0 <= i < find_slash(s) ==> s[i] != '/',
    decreases s.len(),
{
    if s.len() == 0 || s[0] == '/' {
    } else {
        lemma_find_slash_basic(s.drop_first());
        assert forall|i: int| 0 <= i < find_slash(s) implies s[i] != '/' by {
            if i > 0 {
                assert(s.drop_first()[i - 1] == s[i]);
            }
        }
    }
}

/// Where the first slash of `a + "/" + b` stands, when `a` holds none.
pub proof fn lemma_find_slash_concat(a: Seq<char>, b: Seq<char>)
    requires
        forall|i: int| 0 <= i < a.len() ==> a[i] != '/',
    ensures
        find_slash(a + seq!['/'] + b) == a.len(),
    decreases a.len(),
{
    let s = a + seq!['/'] + b;
    if a.len() == 0 {
        assert(s[0] == '/');
    } else {
        assert(s[0] == a[0]);
        let a2 = a.drop_first();
        assert forall|i: int| 0 <= i < a2.len() implies a2[i] != '/' by {
            assert(a2[i] == a[i + 1]);
        }
        lemma_find_slash_concat(a2, b);
        assert(s.drop_first() =~= a2 + seq!['/'] + b);
    }
}

/// A scan that found no slash before `k`, and one at `k` if `k` is inside,
/// agrees with `find_slash`.
pub proof fn lemma_find_slash_agree(s: Seq<char>, k: int)
    requires
        0 <= k <= s.len(),
        forall|i: int| 0 <= i < k ==> s[i] != '/',
        k < s.len() ==> s[k] == '/',
    ensures
        find_slash(s) == k,
    decreases k,
{
    if s.len() == 0 {
    } else if k == 0 {
        if s.len() > 0 && s[0] != '/' {
            // k == 0 == s.len() is excluded above, so s[0] == '/'
        }
    } else {
        let s2 = s.drop_first();
        assert forall|i: int| 0 <= i < k - 1 implies s2[i] != '/' by {
            assert(s2[i] == s[i + 1]);
        }
        assert(k - 1 < s2.len() ==> s2[k - 1] == s[k]);
        lemma_find_slash_agree(s2, k - 1);
    }
}

/// Formats an LSN as `HIGH/LOW` in canonical uppercase hexadecimal.
pub fn lsn_fmt(lsn: u64) -> (r: String)
    ensures
        r@ == lsn_seq(lsn),
{
    let hi = (lsn / LSN_GROUP) as u32;
    let lo = (lsn % LSN_GROUP) as u32;
    let mut r = hex_str(hi);
    r.append("/");
    let lo_str = hex_str(lo);
    r.append(lo_str.as_str());
    proof {
        reveal_strlit("/");
        assert(r@ =~= lsn_seq(lsn));
    }
    r
}

/// Parses `HIGH/LOW` hexadecimal LSN text; rejects anything else.
pub fn lsn_from_str(s: &str) -> (r: Result<u64, ParseError>)
    ensures
        r is Ok <==> lsn_text_wf(s@),
        r matches Ok(v) ==> v == lsn_text_val(s@),
        r matches Err(e) ==> e == ParseError::BadLsn,
{
    let len = s.unicode_len();
    let mut k: usize = 0;
    while k < len && s.get_char(k) != '/'
        invariant
            0 <= k <= len,
            len == s@.len(),
            forall|i: int| 0 <= i < k ==> s@[i] != '/',
        decreases len - k,
    {
        k += 1;
    }
    proof {
        lemma_find_slash_agree(s@, k as int);
    }
    if k == len {
        return Err(ParseError::BadLsn);
    }
    let mut j: usize = k + 1;
    while j < len
        invariant
            k < j <= len,
            len == s@.len(),
            find_slash(s@) == k,
            forall|i: int| k < i < j ==> s@[i] != '/',
        decreases len - j,
    {
        if s.get_char(j) == '/' {
            return Err(ParseError::BadLsn);
        }
        j += 1;
    }
    let a = s.substring_char(0, k);
    let b = s.substring_char(k + 1, len);
    proof {
        assert(a@ =~= s@.take(k as int));
        assert(b@ =~= s@.skip(k + 1));
    }
    match (parse_hex_u32(a), parse_hex_u32(b)) {
        (Some(hi), Some(lo)) => Ok(hi as u64 * LSN_GROUP + lo as u64),
        _ => Err(ParseError::BadLsn),
    }
}

/// Parsing the canonical text of an LSN gives the LSN back.
pub proof fn lemma_lsn_value_roundtrip(lsn: u64)
    ensures
        lsn_text_wf(lsn_seq(lsn)),
        lsn_text_val(lsn_seq(lsn)) == lsn,
        lsn_text_canonical(lsn_seq(lsn)),
{
    let a = hex_seq(lsn_hi(lsn));
    let b = hex_seq(lsn_lo(lsn));
    let s = lsn_seq(lsn);
    lemma_hex_seq_canonical(lsn_hi(lsn));
    lemma_hex_seq_canonical(lsn_lo(lsn));
    lemma_hex_seq_val(lsn_hi(lsn));
    lemma_hex_seq_val(lsn_lo(lsn));
    assert(forall|i: int| 0 <= i < a.len() ==> a[i] != '/');
    lemma_find_slash_concat(a, b);
    assert(find_slash(s) == a.len());
    assert(s.take(a.len() as int) =~= a);
    assert(s.skip(a.len() as int + 1) =~= b);
    assert forall|i: int| a.len() < i < s.len() implies s[i] != '/' by {
        assert(s[i] == b[i - a.len() - 1]);
        assert(is_hex_digit(b[i - a.len() - 1]));
    }
    assert(lsn_hi(lsn) * 0x1_0000_0000 + lsn_lo(lsn) == lsn as nat);
}

/// Formatting a parsed LSN reproduces canonical LSN text exactly.
pub proof fn lemma_lsn_text_roundtrip(s: Seq<char>)
    requires
        lsn_text_canonical(s),
    ensures
        lsn_seq(lsn_text_val(s)) == s,
{
    let k = find_slash(s);
    lemma_find_slash_basic(s);
    let a = s.take(k);
    let b = s.skip(k + 1);
    let va = hex_val(a);
    let vb = hex_val(b);
    let v = lsn_text_val(s);
    assert(va * 0x1_0000_0000 + vb <= u32::MAX as nat * 0x1_0000_0000 + u32::MAX as nat);
    assert(v as nat == va * 0x1_0000_0000 + vb);
    assert(lsn_hi(v) == va && lsn_lo(v) == vb) by {
        assert(vb < 0x1_0000_0000);
    }
    lemma_hex_canonical_roundtrip(a);
    lemma_hex_canonical_roundtrip(b);
    assert(s =~= a + seq![s[k]] + b);
    assert(lsn_seq(v) =~= s);
}

} // verus!
