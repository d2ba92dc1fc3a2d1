//! Byte strings in hexadecimal notation.

use crate::text::{chars_of, is_white_space, lower, lowered, trimmed};
use vstd::prelude::*;

verus! {

/// The character of a hexadecimal digit.
pub open spec fn hex_digit(n: int) -> char {
    if n < 10 {
        (48 + n) as u8 as char
    } else {
        (87 + n) as u8 as char
    }
}

/// `bytes` in hexadecimal notation: two small digits for each, the higher one first.
pub open spec fn hex_text(bytes: Seq<u8>) -> Seq<char>
    decreases bytes.len(),
{
    if bytes.len() == 0 {
        Seq::<char>::empty()
    } else {
        hex_text(bytes.drop_last()).push(hex_digit(bytes.last() as int / 16)).push(
            hex_digit(bytes.last() as int % 16),
        )
    }
}

fn digit_char(n: u8) -> (c: char)
    requires
        n < 16,
    ensures
        c == hex_digit(n as int),
{
    if n < 10 {
        (48 + n) as char
    } else {
        (87 + n) as char
    }
}

/// `bytes` in hexadecimal notation.
pub fn hex_of(bytes: &[u8]) -> (r: String)
    ensures
        r@ == hex_text(bytes@),
{
    let mut r = String::new();
    let mut i: usize = 0;
    while i < bytes.len()
        invariant
            i <= bytes@.len(),
            r@ == hex_text(bytes@.take(i as int)),
        decreases bytes@.len() - i,
    {
        let b: u8 = bytes[i];
        assert(bytes@.take(i + 1).drop_last() =~= bytes@.take(i as int));
        r.push(digit_char(b / 16));
        r.push(digit_char(b % 16));
        i += 1;
    }
    assert(bytes@.take(i as int) =~= bytes@);
    r
}

/// The value of a hexadecimal digit, small or capital.
pub open spec fn digit_value(c: char) -> Option<int> {
    if '0' <= c && c <= '9' {
        Some(c as int - 48)
    } else if 'a' <= c && c <= 'f' {
        Some(c as int - 87)
    } else if 'A' <= c && c <= 'F' {
        Some(c as int - 55)
    } else {
        None
    }
}

/// The value of two characters as a hexadecimal number, of which the first may be a plus sign.
pub open spec fn pair_value(a: char, b: char) -> Option<int> {
    if a == '+' {
        digit_value(b)
    } else {
        match (digit_value(a), digit_value(b)) {
            (Some(h), Some(l)) => Some(16 * h + l),
            _ => None,
        }
    }
}

/// The bytes that `cs` stands for, two characters for each.
pub open spec fn hex_bytes(cs: Seq<char>) -> Option<Seq<u8>>
    decreases cs.len(),
{
    if cs.len() == 0 {
        Some(Seq::<u8>::empty())
    } else if cs.len() == 1 {
        None
    } else {
        match (
            hex_bytes(cs.take(cs.len() - 2)),
            pair_value(cs[cs.len() - 2], cs[cs.len() - 1]),
        ) {
            (Some(bytes), Some(v)) => Some(bytes.push(v as u8)),
            _ => None,
        }
    }
}

fn value_of(c: char) -> (r: Option<u8>)
    ensures
        r is Some <==> digit_value(c) is Some,
        r matches Some(v) ==> v as int == digit_value(c)->0 && v < 16,
{
    if '0' <= c && c <= '9' {
        Some(c as u8 - 48)
    } else if 'a' <= c && c <= 'f' {
        Some(c as u8 - 87)
    } else if 'A' <= c && c <= 'F' {
        Some(c as u8 - 55)
    } else {
        None
    }
}

/// Why a text does not stand for 32 bytes.
#[derive(Clone, Copy, Debug, PartialEq, Eq, Structural)]
pub enum HexError {
    /// It does not take up 64 bytes.
    Length,
    /// It holds something else than digits.
    Digits,
}

/// What a text stands for.
pub open spec fn hex32(s: Seq<char>) -> Result<Seq<u8>, HexError> {
    if vstd::utf8::encode_utf8(s).len() != 64 {
        Err(HexError::Length)
    } else {
        match hex_bytes(s) {
            Some(bytes) if bytes.len() == 32 => Ok(bytes),
            _ => Err(HexError::Digits),
        }
    }
}

proof fn lemma_hex_bytes_prefix(cs: Seq<char>, n: int)
    requires
        0 <= n,
        2 * n <= cs.len(),
        hex_bytes(cs.take(2 * n)) is None,
        cs.len() % 2 == 0,
    ensures
        hex_bytes(cs) is None,
    decreases cs.len(),
{
    if cs.len() == 2 * n {
        assert(cs.take(2 * n) =~= cs);
    } else {
        let front = cs.take(cs.len() - 2);
        assert(front.take(2 * n) =~= cs.take(2 * n));
        lemma_hex_bytes_prefix(front, n);
    }
}

proof fn lemma_hex_bytes_ascii(cs: Seq<char>)
    requires
        hex_bytes(cs) is Some,
    ensures
        cs.len() % 2 == 0,
        (hex_bytes(cs)->0).len() * 2 == cs.len(),
        vstd::utf8::is_ascii_chars(cs),
    decreases cs.len(),
{
    if cs.len() >= 2 {
        let front = cs.take(cs.len() - 2);
        lemma_hex_bytes_ascii(front);
        assert forall|i: int| 0 <= i < cs.len() implies '\0' <= #[trigger] cs[i] <= '\u{7f}' by {
            if i < cs.len() - 2 {
                assert(cs[i] == front[i]);
            }
        }
    }
}

/// The 32 bytes that a text stands for.
pub fn parse_hex32(s: &str) -> (r: Result<[u8; 32], HexError>)
    ensures
        r is Ok <==> hex32(s@) is Ok,
        r matches Ok(bytes) ==> hex32(s@) == Ok::<Seq<u8>, HexError>(bytes@),
        r matches Err(e) ==> hex32(s@) == Err::<Seq<u8>, HexError>(e),
{
    if s.as_bytes().len() != 64 {
        return Err(HexError::Length);
    }
    let cs = chars_of(s);
    if cs.len() != 64 {
        proof {
            if hex_bytes(s@) is Some {
                lemma_hex_bytes_ascii(s@);
                vstd::utf8::is_ascii_chars_encode_utf8(s@);
            }
        }
        return Err(HexError::Digits);
    }
    let mut out: [u8; 32] = [0u8; 32];
    let mut i: usize = 0;
    assert(out@.take(0) =~= Seq::<u8>::empty());
    while i < 32
        invariant
            cs@ == s@,
            cs@.len() == 64,
            vstd::utf8::encode_utf8(s@).len() == 64,
            i <= 32,
            hex_bytes(s@.take(2 * i as int)) == Some(out@.take(i as int)),
        decreases 32 - i,
    {
        let a = cs[2 * i];
        let b = cs[2 * i + 1];
        proof {
            let t = s@.take(2 * (i + 1));
            assert(t.take(t.len() - 2) =~= s@.take(2 * i as int));
            assert(t[t.len() - 2] == a && t[t.len() - 1] == b);
        }
        let low = value_of(b);
        let value: Option<u8> = if a == '+' {
            low
        } else {
            match (value_of(a), low) {
                (Some(h), Some(l)) => Some(16 * h + l),
                _ => None,
            }
        };
        match value {
            Some(v) => {
                let ghost before = out@;
                out[i] = v;
                assert(out@.take(i + 1) =~= before.take(i as int).push(v));
            },
            None => {
                proof {
                    lemma_hex_bytes_prefix(s@, i + 1);
                }
                return Err(HexError::Digits);
            },
        }
        i += 1;
    }
    assert(s@.take(64) =~= s@);
    assert(out@.take(32) =~= out@);
    Ok(out)
}

proof fn lemma_hex_text_len(bytes: Seq<u8>)
    ensures
        hex_text(bytes).len() == 2 * bytes.len(),
    decreases bytes.len(),
{
    if bytes.len() > 0 {
        lemma_hex_text_len(bytes.drop_last());
    }
}

/// Reading the notation of some bytes gives them back.
pub proof fn law_hex_round_trip(bytes: Seq<u8>)
    ensures
        hex_bytes(hex_text(bytes)) == Some(bytes),
    decreases bytes.len(),
{
    lemma_hex_text_len(bytes);
    if bytes.len() > 0 {
        let front = bytes.drop_last();
        let b = bytes.last() as int;
        law_hex_round_trip(front);
        lemma_hex_text_len(front);
        let t = hex_text(bytes);
        assert(t.take(t.len() - 2) =~= hex_text(front));
        assert(digit_value(hex_digit(b / 16)) == Some(b / 16));
        assert(digit_value(hex_digit(b % 16)) == Some(b % 16));
        assert(hex_digit(b / 16) != '+');
        assert(16 * (b / 16) + b % 16 == b);
        assert(front.push(bytes.last()) =~= bytes);
    } else {
        assert(bytes =~= Seq::<u8>::empty());
    }
}

/// The notation of 32 bytes is read as these bytes.
pub proof fn law_hex32_round_trip(bytes: Seq<u8>)
    requires
        bytes.len() == 32,
    ensures
        hex32(hex_text(bytes)) == Ok::<Seq<u8>, HexError>(bytes),
{
    let t = hex_text(bytes);
    law_hex_round_trip(bytes);
    lemma_hex_text_len(bytes);
    lemma_hex_bytes_ascii(t);
    vstd::utf8::is_ascii_chars_encode_utf8(t);
}

/// Different bytes have different notations.
pub proof fn law_hex_injective(a: Seq<u8>, b: Seq<u8>)
    requires
        hex_text(a) == hex_text(b),
    ensures
        a == b,
{
    law_hex_round_trip(a);
    law_hex_round_trip(b);
}

/// The notation of bytes has two characters for each, all of them small letters or digits.
pub proof fn lemma_hex_text_is_plain(bytes: Seq<u8>)
    ensures
        hex_text(bytes).len() == 2 * bytes.len(),
        trimmed(hex_text(bytes)) == hex_text(bytes),
        forall|i: int|
            0 <= i < hex_text(bytes).len() ==> {
                let c = #[trigger] hex_text(bytes)[i];
                !is_white_space(c) && c != ',' && lower(c) == c
            },
    decreases bytes.len(),
{
    let all = hex_text(bytes);
    if bytes.len() > 0 {
        let front = bytes.drop_last();
        lemma_hex_text_is_plain(front);
        assert forall|i: int| 0 <= i < all.len() implies ({
            let c = #[trigger] all[i];
            !is_white_space(c) && c != ',' && lower(c) == c
        }) by {
            if i < hex_text(front).len() {
                assert(all[i] == hex_text(front)[i]);
            }
        }
        assert(!is_white_space(all[0]));
        assert(!is_white_space(all[all.len() - 1]));
    }
}

/// Each byte is written as two of the sixteen digits: the one for its upper and the one for its lower
/// four bits.
pub proof fn law_hex_digits_of_bytes(bytes: Seq<u8>, i: int)
    requires
        0 <= i < bytes.len(),
    ensures
        hex_text(bytes).len() == 2 * bytes.len(),
        hex_text(bytes)[2 * i] == "0123456789abcdef"@[bytes[i] as int / 16],
        hex_text(bytes)[2 * i + 1] == "0123456789abcdef"@[bytes[i] as int % 16],
    decreases bytes.len(),
{
    reveal_strlit("0123456789abcdef");
    lemma_hex_text_len(bytes);
    let front = bytes.drop_last();
    lemma_hex_text_len(front);
    if i < front.len() {
        law_hex_digits_of_bytes(front, i);
        assert(front[i] == bytes[i]);
        assert(hex_text(bytes)[2 * i] == hex_text(front)[2 * i]);
        assert(hex_text(bytes)[2 * i + 1] == hex_text(front)[2 * i + 1]);
    }
}

/// A text without plus signs is read as bytes exactly where it is their notation, in small or capital
/// letters.
pub proof fn law_hex_is_read_in_any_case(cs: Seq<char>, bytes: Seq<u8>)
    requires
        !cs.contains('+'),
    ensures
        hex_bytes(cs) == Some(bytes) <==> lowered(cs) == hex_text(bytes),
    decreases cs.len(),
{
    lemma_hex_text_len(bytes);
    let low = lowered(cs);
    if cs.len() == 0 {
        assert(low =~= Seq::<char>::empty());
        if bytes.len() == 0 {
            assert(bytes =~= Seq::<u8>::empty());
        } else {
            assert(hex_text(bytes).len() > 0);
        }
    } else if cs.len() == 1 {
        assert(low.len() == 1);
    } else {
        let n = cs.len();
        let front = cs.take(n - 2);
        assert forall|k: int| 0 <= k < front.len() implies front[k] != '+' by {
            assert(cs.contains(cs[k]));
        }
        assert(cs.contains(cs[n - 2]) && cs.contains(cs[n - 1]));
        assert(low.take(n - 2) =~= lowered(front));
        if bytes.len() > 0 {
            let start = bytes.drop_last();
            lemma_hex_text_len(start);
            law_hex_is_read_in_any_case(front, start);
            let t = hex_text(bytes);
            let b = bytes.last() as int;
            if low == t {
                assert(t.take(n - 2) =~= hex_text(start));
                assert(low[n - 2] == hex_digit(b / 16) && low[n - 1] == hex_digit(b % 16));
                assert(lower(cs[n - 2]) == hex_digit(b / 16));
                assert(lower(cs[n - 1]) == hex_digit(b % 16));
                assert(digit_value(cs[n - 2]) == Some(b / 16));
                assert(digit_value(cs[n - 1]) == Some(b % 16));
                assert(start.push(bytes.last()) =~= bytes);
            }
            if hex_bytes(cs) == Some(bytes) {
                let v = pair_value(cs[n - 2], cs[n - 1])->0;
                let read = hex_bytes(front)->0;
                assert(read.push(v as u8).drop_last() =~= read);
                assert(start == read);
                let h = digit_value(cs[n - 2])->0;
                let l = digit_value(cs[n - 1])->0;
                assert(0 <= h < 16 && 0 <= l < 16);
                assert(b == 16 * h + l);
                assert(b / 16 == h && b % 16 == l);
                assert(lower(cs[n - 2]) == hex_digit(h));
                assert(lower(cs[n - 1]) == hex_digit(l));
                assert(low =~= hex_text(start).push(hex_digit(h)).push(hex_digit(l)));
            }
        } else {
            assert(low.len() > 0);
        }
    }
}

/// A text of plain characters stands for 32 bytes exactly where it is their notation, in small or
/// capital letters; one that does not take up 64 bytes has the wrong length, and any other the wrong
/// digits.
pub proof fn law_hex32_tells(s: Seq<char>, bytes: Seq<u8>)
    requires
        !s.contains('+'),
    ensures
        hex32(s) == Ok::<Seq<u8>, HexError>(bytes) <==> bytes.len() == 32 && lowered(s) == hex_text(
            bytes,
        ),
        hex32(s) == Err::<Seq<u8>, HexError>(HexError::Length) <==> vstd::utf8::encode_utf8(
            s,
        ).len() != 64,
{
    law_hex_is_read_in_any_case(s, bytes);
    lemma_hex_text_len(bytes);
    if bytes.len() == 32 && lowered(s) == hex_text(bytes) {
        lemma_hex_bytes_ascii(s);
        vstd::utf8::is_ascii_chars_encode_utf8(s);
    }
}

/// A plus sign in the place of the first digit of a byte counts as zero.
pub proof fn law_plus_counts_as_zero(cs: Seq<char>, i: int)
    requires
        cs.len() % 2 == 0,
        0 <= i,
        2 * i < cs.len(),
        cs[2 * i] == '+',
    ensures
        hex_bytes(cs) == hex_bytes(cs.update(2 * i, '0')),
    decreases cs.len(),
{
    let with_zero = cs.update(2 * i, '0');
    let n = cs.len();
    assert(with_zero[n - 1] == cs[n - 1]);
    if 2 * i == n - 2 {
        assert(with_zero.take(n - 2) =~= cs.take(n - 2));
    } else {
        law_plus_counts_as_zero(cs.take(n - 2), i);
        assert(with_zero.take(n - 2) =~= cs.take(n - 2).update(2 * i, '0'));
        assert(with_zero[n - 2] == cs[n - 2]);
    }
}

} // verus!
