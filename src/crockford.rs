//! The Crockford base-32 text of a byte string, stated bit by bit, and the
//! fact that it keeps the byte order.

use vstd::prelude::*;
use crate::connid::lex_lt;

verus! {

/// The Crockford base-32 alphabet: digits, then letters without I, L, O, U.
pub open spec fn crockford_alphabet() -> Seq<char> {
    seq![
        '0', '1', '2', '3', '4', '5', '6', '7', '8', '9', 'A', 'B', 'C', 'D', 'E', 'F',
        'G', 'H', 'J', 'K', 'M', 'N', 'P', 'Q', 'R', 'S', 'T', 'V', 'W', 'X', 'Y', 'Z',
    ]
}

/// Bit `q` of byte `x`, most significant first.
pub open spec fn byte_bit(x: u8, q: int) -> u8 {
    (x >> ((7 - q) as u8)) & 1u8
}

/// Bit `i` of `b`, most significant bit of the first byte first; zero past
/// the end.
pub open spec fn bit_at(b: Seq<u8>, i: int) -> u8 {
    if 0 <= i < 8 * b.len() {
        byte_bit(b[i / 8], i % 8)
    } else {
        0u8
    }
}

/// The value of the five bits from bit `5 * k`.
pub open spec fn quint(b: Seq<u8>, k: int) -> int {
    16 * bit_at(b, 5 * k) + 8 * bit_at(b, 5 * k + 1) + 4 * bit_at(b, 5 * k + 2) + 2 * bit_at(
        b,
        5 * k + 3,
    ) + bit_at(b, 5 * k + 4)
}

/// The unpadded Crockford base-32 text of `b`: one character for each five
/// bits, the last group filled with zero bits.
pub open spec fn crockford_text(b: Seq<u8>) -> Seq<char> {
    Seq::new(((b.len() * 8 + 4) / 5) as nat, |k: int| crockford_alphabet()[quint(b, k)])
}

/// The value of a character in Crockford base-32 text, read after ASCII
/// upper-casing: `I` and `L` read as 1, `O` as 0; `None` for a character
/// outside the alphabet.
pub open spec fn crockford_digit(c: char) -> Option<u8> {
    let u: u32 = if 'a' <= c && c <= 'z' {
        (c as u32 - 32) as u32
    } else {
        c as u32
    };
    if 48 <= u && u <= 57 {
        Some((u - 48) as u8)
    } else if 65 <= u && u <= 72 {
        Some((u - 55) as u8)
    } else if u == 73 || u == 76 {
        Some(1u8)
    } else if u == 74 || u == 75 {
        Some((u - 56) as u8)
    } else if u == 77 || u == 78 {
        Some((u - 57) as u8)
    } else if u == 79 {
        Some(0u8)
    } else if 80 <= u && u <= 84 {
        Some((u - 58) as u8)
    } else if 86 <= u && u <= 90 {
        Some((u - 59) as u8)
    } else {
        None
    }
}

/// Bit `i` of the digits of `t`, five to a character, most significant first.
pub open spec fn digit_bit(t: Seq<char>, i: int) -> int {
    ((crockford_digit(t[i / 5])->Some_0 >> ((4 - i % 5) as u8)) & 1u8) as int
}

/// Byte `j` of the bytes that the digits of `t` spell.
pub open spec fn decoded_byte(t: Seq<char>, j: int) -> u8 {
    (128 * digit_bit(t, 8 * j) + 64 * digit_bit(t, 8 * j + 1) + 32 * digit_bit(t, 8 * j + 2) + 16
        * digit_bit(t, 8 * j + 3) + 8 * digit_bit(t, 8 * j + 4) + 4 * digit_bit(t, 8 * j + 5) + 2
        * digit_bit(t, 8 * j + 6) + digit_bit(t, 8 * j + 7)) as u8
}

/// The bytes that Crockford base-32 text spells, five bits per character,
/// whole bytes only; `None` where a character is outside the alphabet.
#[verifier::opaque]
pub open spec fn crockford_decoded(t: Seq<char>) -> Option<Seq<u8>> {
    if forall|i: int| 0 <= i < t.len() ==> (#[trigger] crockford_digit(t[i])) is Some {
        Some(Seq::new((t.len() * 5 / 8) as nat, |j: int| decoded_byte(t, j)))
    } else {
        None
    }
}

/// Text with a character outside the alphabet is refused.
pub proof fn lemma_decode_refuses(t: Seq<char>)
    ensures
        (exists|i: int| 0 <= i < t.len() && (#[trigger] crockford_digit(t[i])) is None)
            ==> crockford_decoded(t) is None,
{
    reveal(crockford_decoded);
}

/// ASCII upper-casing of one character.
pub open spec fn ascii_upper(c: char) -> char {
    if 'a' <= c && c <= 'z' {
        ((c as u32) - 32) as char
    } else {
        c
    }
}

/// Decoding ignores case: text and its ASCII upper-cased form spell the same
/// bytes, or are refused alike.
pub proof fn lemma_decode_ignores_case(t: Seq<char>)
    ensures
        crockford_decoded(t) == crockford_decoded(t.map_values(|c: char| ascii_upper(c))),
{
    reveal(crockford_decoded);
    let u = t.map_values(|c: char| ascii_upper(c));
    assert forall|i: int| 0 <= i < t.len() implies #[trigger] crockford_digit(u[i]) == crockford_digit(t[i]) by {
        let c = t[i];
        if 'a' <= c && c <= 'z' {
            assert((((c as u32) - 32) as char) as u32 == (c as u32) - 32);
        }
    }
    if crockford_decoded(t) is Some {
        assert forall|i: int| 0 <= i < u.len() implies (#[trigger] crockford_digit(u[i])) is Some by {
            assert(crockford_digit(t[i]) is Some);
        }
        assert forall|j: int| 0 <= j < t.len() * 5 / 8 implies decoded_byte(t, j) == decoded_byte(u, j) by {
            assert forall|i: int| 0 <= i < 8 * j + 8 implies digit_bit(t, i) == digit_bit(u, i) by {
                if 0 <= i / 5 < t.len() {
                    assert(crockford_digit(u[i / 5]) == crockford_digit(t[i / 5]));
                }
            }
        }
        assert(crockford_decoded(t)->Some_0 =~= crockford_decoded(u)->Some_0);
    } else {
        let i = choose|i: int| 0 <= i < t.len() && !((#[trigger] crockford_digit(t[i])) is Some);
        assert(crockford_digit(u[i]) == crockford_digit(t[i]));
    }
}

/// `a` comes before `b` in lexicographic character order.
pub open spec fn text_lt(a: Seq<char>, b: Seq<char>) -> bool {
    exists|k: int|
        0 <= k < a.len() && k < b.len() && (a[k] as u32) < (b[k] as u32) && (forall|j: int|
            0 <= j < k ==> #[trigger] a[j] == b[j])
}

proof fn lemma_alphabet_step(i: int)
    requires
        0 <= i < 31,
    ensures
        (crockford_alphabet()[i] as u32) < (crockford_alphabet()[i + 1] as u32),
{
}

proof fn lemma_alphabet_order(x: int, y: int)
    requires
        0 <= x < y < 32,
    ensures
        (crockford_alphabet()[x] as u32) < (crockford_alphabet()[y] as u32),
    decreases y - x,
{
    lemma_alphabet_step(y - 1);
    if x < y - 1 {
        lemma_alphabet_order(x, y - 1);
    }
}

proof fn lemma_bit_small(x: u8, s: u8)
    ensures
        (x >> s) & 1u8 <= 1,
{
    assert((x >> s) & 1u8 <= 1) by (bit_vector);
}

proof fn lemma_bit_at_small(b: Seq<u8>, i: int)
    ensures
        bit_at(b, i) <= 1,
{
    if 0 <= i < 8 * b.len() {
        lemma_bit_small(b[i / 8], (7 - i % 8) as u8);
    }
}

/// Of two bytes, the smaller has a zero where the larger first has a one.
proof fn lemma_first_bit(x: u8, y: u8) -> (m: int)
    requires
        x < y,
    ensures
        0 <= m < 8,
        byte_bit(x, m) == 0,
        byte_bit(y, m) == 1,
        forall|q: int| 0 <= q < m ==> #[trigger] byte_bit(x, q) == byte_bit(y, q),
{
    let (x7, x6, x5, x4) = ((x >> 7u8) & 1u8, (x >> 6u8) & 1u8, (x >> 5u8) & 1u8, (x >> 4u8) & 1u8);
    let (x3, x2, x1, x0) = ((x >> 3u8) & 1u8, (x >> 2u8) & 1u8, (x >> 1u8) & 1u8, (x >> 0u8) & 1u8);
    let (y7, y6, y5, y4) = ((y >> 7u8) & 1u8, (y >> 6u8) & 1u8, (y >> 5u8) & 1u8, (y >> 4u8) & 1u8);
    let (y3, y2, y1, y0) = ((y >> 3u8) & 1u8, (y >> 2u8) & 1u8, (y >> 1u8) & 1u8, (y >> 0u8) & 1u8);
    assert((x7 == 0 && y7 == 1)
        || (x7 == y7 && x6 == 0 && y6 == 1)
        || (x7 == y7 && x6 == y6 && x5 == 0 && y5 == 1)
        || (x7 == y7 && x6 == y6 && x5 == y5 && x4 == 0 && y4 == 1)
        || (x7 == y7 && x6 == y6 && x5 == y5 && x4 == y4 && x3 == 0 && y3 == 1)
        || (x7 == y7 && x6 == y6 && x5 == y5 && x4 == y4 && x3 == y3 && x2 == 0 && y2 == 1)
        || (x7 == y7 && x6 == y6 && x5 == y5 && x4 == y4 && x3 == y3 && x2 == y2 && x1 == 0 && y1 == 1)
        || (x7 == y7 && x6 == y6 && x5 == y5 && x4 == y4 && x3 == y3 && x2 == y2 && x1 == y1 && x0 == 0 && y0 == 1)) by (bit_vector)
        requires
            x < y,
            x7 == (x >> 7u8) & 1u8,
            x6 == (x >> 6u8) & 1u8,
            x5 == (x >> 5u8) & 1u8,
            x4 == (x >> 4u8) & 1u8,
            x3 == (x >> 3u8) & 1u8,
            x2 == (x >> 2u8) & 1u8,
            x1 == (x >> 1u8) & 1u8,
            x0 == (x >> 0u8) & 1u8,
            y7 == (y >> 7u8) & 1u8,
            y6 == (y >> 6u8) & 1u8,
            y5 == (y >> 5u8) & 1u8,
            y4 == (y >> 4u8) & 1u8,
            y3 == (y >> 3u8) & 1u8,
            y2 == (y >> 2u8) & 1u8,
            y1 == (y >> 1u8) & 1u8,
            y0 == (y >> 0u8) & 1u8,
    ;
    let m: int = if x7 != y7 {
        0
    } else if x6 != y6 {
        1
    } else if x5 != y5 {
        2
    } else if x4 != y4 {
        3
    } else if x3 != y3 {
        4
    } else if x2 != y2 {
        5
    } else if x1 != y1 {
        6
    } else {
        7
    };
    assert forall|q: int| 0 <= q < m implies #[trigger] byte_bit(x, q) == byte_bit(y, q) by {
        if q == 0 {
            assert((7 - q) as u8 == 7u8);
        } else if q == 1 {
            assert((7 - q) as u8 == 6u8);
        } else if q == 2 {
            assert((7 - q) as u8 == 5u8);
        } else if q == 3 {
            assert((7 - q) as u8 == 4u8);
        } else if q == 4 {
            assert((7 - q) as u8 == 3u8);
        } else if q == 5 {
            assert((7 - q) as u8 == 2u8);
        } else {
            assert((7 - q) as u8 == 1u8);
        }
    }
    if m == 0 {
        assert((7 - m) as u8 == 7u8);
    } else if m == 1 {
        assert((7 - m) as u8 == 6u8);
    } else if m == 2 {
        assert((7 - m) as u8 == 5u8);
    } else if m == 3 {
        assert((7 - m) as u8 == 4u8);
    } else if m == 4 {
        assert((7 - m) as u8 == 3u8);
    } else if m == 5 {
        assert((7 - m) as u8 == 2u8);
    } else if m == 6 {
        assert((7 - m) as u8 == 1u8);
    } else {
        assert((7 - m) as u8 == 0u8);
    }
    m
}

/// Crockford base-32 text keeps the order of byte strings of one length.
pub proof fn lemma_text_order(a: Seq<u8>, b: Seq<u8>)
    requires
        a.len() == b.len(),
        lex_lt(a, b),
    ensures
        text_lt(crockford_text(a), crockford_text(b)),
{
    let j = choose|j: int|
        0 <= j < a.len() && j < b.len() && a[j] < b[j] && (forall|q: int| 0 <= q < j ==> #[trigger] a[q] == b[q]);
    let m = lemma_first_bit(a[j], b[j]);
    let p = 8 * j + m;
    assert(bit_at(a, p) == 0 && bit_at(b, p) == 1) by {
        assert(p / 8 == j && p % 8 == m);
    }
    assert forall|i: int| 0 <= i < p implies bit_at(a, i) == bit_at(b, i) by {
        if i / 8 < j {
            assert(a[i / 8] == b[i / 8]);
        } else {
            assert(i / 8 == j);
            assert(i % 8 < m);
        }
    }
    let k = p / 5;
    let ta = crockford_text(a);
    let tb = crockford_text(b);
    assert(k < ta.len() && k < tb.len());
    assert forall|t: int| 0 <= t < k implies #[trigger] ta[t] == tb[t] by {
        assert(5 * t + 4 < p);
        assert(quint(a, t) == quint(b, t));
    }
    lemma_bit_at_small(a, 5 * k);
    lemma_bit_at_small(a, 5 * k + 1);
    lemma_bit_at_small(a, 5 * k + 2);
    lemma_bit_at_small(a, 5 * k + 3);
    lemma_bit_at_small(a, 5 * k + 4);
    lemma_bit_at_small(b, 5 * k);
    lemma_bit_at_small(b, 5 * k + 1);
    lemma_bit_at_small(b, 5 * k + 2);
    lemma_bit_at_small(b, 5 * k + 3);
    lemma_bit_at_small(b, 5 * k + 4);
    assert(5 * k <= p < 5 * k + 5);
    assert(0 <= quint(a, k) < quint(b, k) < 32);
    lemma_alphabet_order(quint(a, k), quint(b, k));
    assert((ta[k] as u32) < (tb[k] as u32));
}

} // verus!
