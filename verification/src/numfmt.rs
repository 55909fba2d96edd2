//! Decimal and hexadecimal numerals: spec-level digit sequences and values,
//! executable formatting and parsing, and the round-trip lemmas connecting
//! them.
use vstd::prelude::*;

verus! {

/// The character for a digit value below 16, uppercase.
pub open spec fn digit_char(d: int) -> char {
    if d == 0 {
        '0'
    } else if d == 1 {
        '1'
    } else if d == 2 {
        '2'
    } else if d == 3 {
        '3'
    } else if d == 4 {
        '4'
    } else if d == 5 {
        '5'
    } else if d == 6 {
        '6'
    } else if d == 7 {
        '7'
    } else if d == 8 {
        '8'
    } else if d == 9 {
        '9'
    } else if d == 10 {
        'A'
    } else if d == 11 {
        'B'
    } else if d == 12 {
        'C'
    } else if d == 13 {
        'D'
    } else if d == 14 {
        'E'
    } else {
        'F'
    }
}

/// The value of a hexadecimal digit character (either case); 16 marks a
/// character that is no hexadecimal digit.
pub open spec fn hex_digit_val(c: char) -> nat {
    if c == '0' {
        0
    } else if c == '1' {
        1
    } else if c == '2' {
        2
    } else if c == '3' {
        3
    } else if c == '4' {
        4
    } else if c == '5' {
        5
    } else if c == '6' {
        6
    } else if c == '7' {
        7
    } else if c == '8' {
        8
    } else if c == '9' {
        9
    } else if c == 'A' || c == 'a' {
        10
    } else if c == 'B' || c == 'b' {
        11
    } else if c == 'C' || c == 'c' {
        12
    } else if c == 'D' || c == 'd' {
        13
    } else if c == 'E' || c == 'e' {
        14
    } else if c == 'F' || c == 'f' {
        15
    } else {
        16
    }
}

pub open spec fn is_hex_digit(c: char) -> bool {
    hex_digit_val(c) < 16
}

pub open spec fn is_dec_digit(c: char) -> bool {
    hex_digit_val(c) < 10
}

pub open spec fn all_hex(s: Seq<char>) -> bool {
    forall|i: int| 0 <= i < s.len() ==> is_hex_digit(#[trigger] s[i])
}

pub open spec fn all_dec(s: Seq<char>) -> bool {
    forall|i: int| 0 <= i < s.len() ==> is_dec_digit(#[trigger] s[i])
}

/// The canonical (uppercase, no leading zero) hexadecimal numeral of `n`.
pub open spec fn hex_seq(n: nat) -> Seq<char>
    decreases n,
{
    if n < 16 {
        seq![digit_char(n as int)]
    } else {
        hex_seq(n / 16).push(digit_char((n % 16) as int))
    }
}

/// The canonical decimal numeral of `n`.
pub open spec fn dec_seq(n: nat) -> Seq<char>
    decreases n,
{
    if n < 10 {
        seq![digit_char(n as int)]
    } else {
        dec_seq(n / 10).push(digit_char((n % 10) as int))
    }
}

/// The value a sequence of hexadecimal digits denotes.
pub open spec fn hex_val(s: Seq<char>) -> nat
    decreases s.len(),
{
    if s.len() == 0 {
        0
    } else {
        16 * hex_val(s.drop_last()) + hex_digit_val(s.last())
    }
}

/// The value a sequence of decimal digits denotes.
pub open spec fn dec_val(s: Seq<char>) -> nat
    decreases s.len(),
{
    if s.len() == 0 {
        0
    } else {
        10 * dec_val(s.drop_last()) + hex_digit_val(s.last())
    }
}

/// A canonical hexadecimal numeral: nonempty, uppercase digits, no leading
/// zero except for "0" itself.
pub open spec fn hex_canonical(s: Seq<char>) -> bool {
    &&& s.len() > 0
    &&& forall|i: int|
        0 <= i < s.len() ==> is_hex_digit(#[trigger] s[i]) && digit_char(
            hex_digit_val(s[i]) as int,
        ) == s[i]
    &&& s.len() > 1 ==> s[0] != '0'
}

pub open spec fn dec_canonical(s: Seq<char>) -> bool {
    &&& s.len() > 0
    &&& forall|i: int| 0 <= i < s.len() ==> is_dec_digit(#[trigger] s[i])
    &&& s.len() > 1 ==> s[0] != '0'
}

pub proof fn lemma_digit_char_val(d: int)
    requires
        0 <= d < 16,
    ensures
        hex_digit_val(digit_char(d)) == d,
{
}

/// Every numeral `hex_seq` builds is canonical, and starts with '0' only for
/// zero itself.
pub proof fn lemma_hex_seq_canonical(n: nat)
    ensures
        hex_canonical(hex_seq(n)),
        hex_seq(n)[0] == '0' <==> n == 0,
        hex_seq(n).len() == 1 <==> n < 16,
    decreases n,
{
    if n < 16 {
        lemma_digit_char_val(n as int);
    } else {
        lemma_hex_seq_canonical(n / 16);
        lemma_digit_char_val((n % 16) as int);
        let s = hex_seq(n);
        let t = hex_seq(n / 16);
        assert(s == t.push(digit_char((n % 16) as int)));
        assert forall|i: int| 0 <= i < s.len() implies is_hex_digit(#[trigger] s[i]) && digit_char(
            hex_digit_val(s[i]) as int,
        ) == s[i] by {
            if i < t.len() {
                assert(s[i] == t[i]);
            }
        }
    }
}

pub proof fn lemma_dec_seq_canonical(n: nat)
    ensures
        dec_canonical(dec_seq(n)),
        dec_seq(n)[0] == '0' <==> n == 0,
        dec_seq(n).len() == 1 <==> n < 10,
    decreases n,
{
    if n < 10 {
        lemma_digit_char_val(n as int);
    } else {
        lemma_dec_seq_canonical(n / 10);
        lemma_digit_char_val((n % 10) as int);
        let s = dec_seq(n);
        let t = dec_seq(n / 10);
        assert(s == t.push(digit_char((n % 10) as int)));
        assert forall|i: int| 0 <= i < s.len() implies is_dec_digit(#[trigger] s[i]) by {
            if i < t.len() {
                assert(s[i] == t[i]);
            }
        }
    }
}

/// Formatting then evaluating gives the number back.
pub proof fn lemma_hex_seq_val(n: nat)
    ensures
        hex_val(hex_seq(n)) == n,
    decreases n,
{
    if n < 16 {
        lemma_digit_char_val(n as int);
        assert(hex_val(Seq::<char>::empty()) == 0);
        assert(hex_seq(n).drop_last() =~= Seq::<char>::empty());
        assert(hex_seq(n).last() == digit_char(n as int));
    } else {
        lemma_hex_seq_val(n / 16);
        lemma_digit_char_val((n % 16) as int);
        let t = hex_seq(n / 16);
        let d = digit_char((n % 16) as int);
        let s = hex_seq(n);
        assert(s == t.push(d));
        assert(s.drop_last() =~= t);
        assert(s.last() == d);
        assert(hex_val(s) == 16 * hex_val(t) + hex_digit_val(d));
        assert(16 * (n / 16) + n % 16 == n);
    }
}

pub proof fn lemma_dec_seq_val(n: nat)
    ensures
        dec_val(dec_seq(n)) == n,
    decreases n,
{
    if n < 10 {
        lemma_digit_char_val(n as int);
        assert(dec_val(Seq::<char>::empty()) == 0);
        assert(dec_seq(n).drop_last() =~= Seq::<char>::empty());
        assert(dec_seq(n).last() == digit_char(n as int));
    } else {
        lemma_dec_seq_val(n / 10);
        lemma_digit_char_val((n % 10) as int);
        let t = dec_seq(n / 10);
        let d = digit_char((n % 10) as int);
        let s = dec_seq(n);
        assert(s == t.push(d));
        assert(s.drop_last() =~= t);
        assert(s.last() == d);
        assert(dec_val(s) == 10 * dec_val(t) + hex_digit_val(d));
        assert(10 * (n / 10) + n % 10 == n);
    }
}

/// A nonempty digit sequence that does not start with '0' denotes a positive
/// value.
pub proof fn lemma_hex_val_positive(s: Seq<char>)
    requires
        s.len() > 0,
        hex_digit_val(s[0]) > 0,
    ensures
        hex_val(s) > 0,
    decreases s.len(),
{
    if s.len() > 1 {
        assert(s.drop_last()[0] == s[0]);
        lemma_hex_val_positive(s.drop_last());
    }
}

/// Evaluating a canonical numeral then formatting reproduces it exactly.
pub proof fn lemma_hex_canonical_roundtrip(s: Seq<char>)
    requires
        hex_canonical(s),
    ensures
        hex_seq(hex_val(s)) == s,
    decreases s.len(),
{
    if s.len() == 1 {
        assert(hex_val(Seq::<char>::empty()) == 0);
        assert(s.drop_last() =~= Seq::<char>::empty());
        assert(hex_val(s) == hex_digit_val(s[0]));
        assert(hex_seq(hex_val(s)) =~= s);
    } else {
        let t = s.drop_last();
        let d = hex_digit_val(s.last());
        assert(forall|i: int| 0 <= i < t.len() ==> t[i] == s[i]);
        assert(hex_canonical(t));
        assert(t[0] == s[0]);
        assert(t[0] != '0');
        lemma_digit_char_val(hex_digit_val(t[0]) as int);
        lemma_hex_val_positive(t);
        lemma_hex_canonical_roundtrip(t);
        let v = hex_val(s);
        assert(v == 16 * hex_val(t) + d);
        assert(v >= 16);
        assert(v / 16 == hex_val(t) && v % 16 == d) by {
            assert(hex_val(t) >= 1);
            assert(d < 16);
        }
        assert(hex_seq(v) == hex_seq(hex_val(t)).push(digit_char(d as int)));
        assert(hex_seq(v) =~= s);
    }
}

pub proof fn lemma_dec_val_positive(s: Seq<char>)
    requires
        s.len() > 0,
        hex_digit_val(s[0]) > 0,
    ensures
        dec_val(s) > 0,
    decreases s.len(),
{
    if s.len() > 1 {
        assert(s.drop_last()[0] == s[0]);
        lemma_dec_val_positive(s.drop_last());
    }
}

pub proof fn lemma_dec_canonical_roundtrip(s: Seq<char>)
    requires
        dec_canonical(s),
    ensures
        dec_seq(dec_val(s)) == s,
    decreases s.len(),
{
    if s.len() == 1 {
        assert(dec_val(Seq::<char>::empty()) == 0);
        assert(s.drop_last() =~= Seq::<char>::empty());
        assert(dec_val(s) == hex_digit_val(s[0]));
        lemma_digit_char_val(hex_digit_val(s[0]) as int);
        assert(dec_seq(dec_val(s)) =~= s);
    } else {
        let t = s.drop_last();
        let d = hex_digit_val(s.last());
        assert(forall|i: int| 0 <= i < t.len() ==> t[i] == s[i]);
        assert(dec_canonical(t));
        assert(t[0] == s[0]);
        assert(t[0] != '0');
        lemma_dec_val_positive(t);
        lemma_dec_canonical_roundtrip(t);
        lemma_digit_char_val(d as int);
        let v = dec_val(s);
        assert(v == 10 * dec_val(t) + d);
        assert(v >= 10);
        assert(v / 10 == dec_val(t) && v % 10 == d) by {
            assert(dec_val(t) >= 1);
            assert(d < 10);
        }
        assert(dec_seq(v) == dec_seq(dec_val(t)).push(digit_char(d as int)));
        assert(dec_seq(v) =~= s);
    }
}

/// A prefix never denotes more than the whole sequence.
pub proof fn lemma_hex_val_take_le(s: Seq<char>, i: int)
    requires
        0 <= i <= s.len(),
    ensures
        hex_val(s.take(i)) <= hex_val(s),
    decreases s.len() - i,
{
    if i == s.len() {
        assert(s.take(i) =~= s);
    } else {
        assert(s.take(i + 1).drop_last() =~= s.take(i));
        assert(hex_val(s.take(i)) <= hex_val(s.take(i + 1)));
        lemma_hex_val_take_le(s, i + 1);
    }
}

pub proof fn lemma_dec_val_take_le(s: Seq<char>, i: int)
    requires
        0 <= i <= s.len(),
    ensures
        dec_val(s.take(i)) <= dec_val(s),
    decreases s.len() - i,
{
    if i == s.len() {
        assert(s.take(i) =~= s);
    } else {
        assert(s.take(i + 1).drop_last() =~= s.take(i));
        assert(dec_val(s.take(i)) <= dec_val(s.take(i + 1)));
        lemma_dec_val_take_le(s, i + 1);
    }
}

/// The one-character string for a digit value below 16, uppercase.
pub fn digit_to_str(d: u8) -> (r: &'static str)
    requires
        d < 16,
    ensures
        r@ == seq![digit_char(d as int)],
{
    let r: &'static str = match d {
        0u8 => "0",
        1u8 => "1",
        2u8 => "2",
        3u8 => "3",
        4u8 => "4",
        5u8 => "5",
        6u8 => "6",
        7u8 => "7",
        8u8 => "8",
        9u8 => "9",
        10u8 => "A",
        11u8 => "B",
        12u8 => "C",
        13u8 => "D",
        14u8 => "E",
        _ => "F",
    };
    proof {
        reveal_strlit("0");
        reveal_strlit("1");
        reveal_strlit("2");
        reveal_strlit("3");
        reveal_strlit("4");
        reveal_strlit("5");
        reveal_strlit("6");
        reveal_strlit("7");
        reveal_strlit("8");
        reveal_strlit("9");
        reveal_strlit("A");
        reveal_strlit("B");
        reveal_strlit("C");
        reveal_strlit("D");
        reveal_strlit("E");
        reveal_strlit("F");
        assert(r@ =~= seq![digit_char(d as int)]);
    }
    r
}

/// The value of one character as a hexadecimal digit; 16 for any other
/// character.
pub fn char_hex_val(c: char) -> (d: u8)
    ensures
        d as nat == hex_digit_val(c),
{
    match c {
        '0' => 0,
        '1' => 1,
        '2' => 2,
        '3' => 3,
        '4' => 4,
        '5' => 5,
        '6' => 6,
        '7' => 7,
        '8' => 8,
        '9' => 9,
        'A' | 'a' => 10,
        'B' | 'b' => 11,
        'C' | 'c' => 12,
        'D' | 'd' => 13,
        'E' | 'e' => 14,
        'F' | 'f' => 15,
        _ => 16,
    }
}

/// Formats `n` in decimal, canonically.
pub fn dec_str(n: u64) -> (r: String)
    ensures
        r@ == dec_seq(n as nat),
    decreases n,
{
    if n < 10 {
        let r = String::from_str(digit_to_str(n as u8));
        proof {
            assert(r@ =~= dec_seq(n as nat));
        }
        r
    } else {
        let mut r = dec_str(n / 10);
        r.append(digit_to_str((n % 10) as u8));
        proof {
            assert(r@ =~= dec_seq(n as nat));
        }
        r
    }
}

/// Formats `n` in uppercase hexadecimal, canonically.
pub fn hex_str(n: u32) -> (r: String)
    ensures
        r@ == hex_seq(n as nat),
    decreases n,
{
    if n < 16 {
        let r = String::from_str(digit_to_str(n as u8));
        proof {
            assert(r@ =~= hex_seq(n as nat));
        }
        r
    } else {
        let mut r = hex_str(n / 16);
        r.append(digit_to_str((n % 16) as u8));
        proof {
            assert(r@ =~= hex_seq(n as nat));
        }
        r
    }
}

/// Parses a sequence of hexadecimal digits (either case) into a 32-bit value;
/// `None` exactly when the string is empty, holds a non-digit, or denotes a
/// value that does not fit.
pub fn parse_hex_u32(s: &str) -> (r: Option<u32>)
    ensures
        r is Some <==> s@.len() > 0 && all_hex(s@) && hex_val(s@) <= u32::MAX,
        r matches Some(v) ==> v as nat == hex_val(s@),
{
    let len = s.unicode_len();
    if len == 0 {
        return None;
    }
    let mut i: usize = 0;
    let mut acc: u64 = 0;
    while i < len
        invariant
            0 <= i <= len,
            len == s@.len(),
            acc as nat == hex_val(s@.take(i as int)),
            acc <= u32::MAX,
            all_hex(s@.take(i as int)),
        decreases len - i,
    {
        let c = s.get_char(i);
        let d = char_hex_val(c);
        if d >= 16 {
            assert(!is_hex_digit(s@[i as int]));
            return None;
        }
        proof {
            assert(s@.take(i + 1).drop_last() =~= s@.take(i as int));
            assert(s@.take(i + 1).last() == s@[i as int]);
        }
        acc = acc * 16 + d as u64;
        if acc > u32::MAX as u64 {
            proof {
                lemma_hex_val_take_le(s@, i + 1);
            }
            return None;
        }
        proof {
            assert forall|j: int| 0 <= j < i + 1 implies is_hex_digit(
                #[trigger] s@.take(i + 1)[j],
            ) by {
                if j < i {
                    assert(s@.take(i + 1)[j] == s@.take(i as int)[j]);
                }
            }
        }
        i += 1;
    }
    proof {
        assert(s@.take(len as int) =~= s@);
    }
    Some(acc as u32)
}

/// Parses a sequence of decimal digits into a 32-bit value; `None` exactly
/// when the string is empty, holds a non-digit, or denotes a value that does
/// not fit.
pub fn parse_dec_u32(s: &str) -> (r: Option<u32>)
    ensures
        r is Some <==> s@.len() > 0 && all_dec(s@) && dec_val(s@) <= u32::MAX,
        r matches Some(v) ==> v as nat == dec_val(s@),
{
    let len = s.unicode_len();
    if len == 0 {
        return None;
    }
    let mut i: usize = 0;
    let mut acc: u64 = 0;
    while i < len
        invariant
            0 <= i <= len,
            len == s@.len(),
            acc as nat == dec_val(s@.take(i as int)),
            acc <= u32::MAX,
            all_dec(s@.take(i as int)),
        decreases len - i,
    {
        let c = s.get_char(i);
        let d = char_hex_val(c);
        if d >= 10 {
            assert(!is_dec_digit(s@[i as int]));
            return None;
        }
        proof {
            assert(s@.take(i + 1).drop_last() =~= s@.take(i as int));
            assert(s@.take(i + 1).last() == s@[i as int]);
        }
        acc = acc * 10 + d as u64;
        if acc > u32::MAX as u64 {
            proof {
                lemma_dec_val_take_le(s@, i + 1);
            }
            return None;
        }
        proof {
            assert forall|j: int| 0 <= j < i + 1 implies is_dec_digit(
                #[trigger] s@.take(i + 1)[j],
            ) by {
                if j < i {
                    assert(s@.take(i + 1)[j] == s@.take(i as int)[j]);
                }
            }
        }
        i += 1;
    }
    proof {
        assert(s@.take(len as int) =~= s@);
    }
    Some(acc as u32)
}

} // verus!
