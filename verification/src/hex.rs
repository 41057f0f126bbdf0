//! Byte strings in hexadecimal.

use vstd::prelude::*;
use vstd::string::*;
use vstd::utf8::encode_utf8;

use crate::text::{ascii, ascii_text, chars_of, lemma_ascii_bytes};

verus! {

/// The lowercase digit of a value below 16.
pub open spec fn hex_digit(value: int) -> u8 {
    if value < 10 {
        (0x30 + value) as u8
    } else {
        (0x61 + value - 10) as u8
    }
}

/// Two lowercase digits for each byte, the high one first.
pub open spec fn hex_of(bytes: Seq<u8>) -> Seq<u8> {
    Seq::new(
        2 * bytes.len(),
        |i: int|
            hex_digit(
                if i % 2 == 0 {
                    bytes[i / 2] as int / 16
                } else {
                    bytes[i / 2] as int % 16
                },
            ),
    )
}

pub proof fn lemma_hex_ascii(bytes: Seq<u8>)
    ensures
        ascii(hex_of(bytes)),
{
    assert forall|i: int| 0 <= i < hex_of(bytes).len() implies #[trigger] hex_of(bytes)[i]
        < 128 by {
        let b = bytes[i / 2] as int;
        assert(0 <= b / 16 < 16 && 0 <= b % 16 < 16);
    }
}

fn digit(value: u8) -> (r: u8)
    requires
        value < 16,
    ensures
        r == hex_digit(value as int),
{
    if value < 10 {
        0x30 + value
    } else {
        0x61 + (value - 10)
    }
}

/// The hexadecimal digits of a byte string, as bytes.
pub fn hex_bytes(bytes: &Vec<u8>) -> (r: Vec<u8>)
    ensures
        r@ == hex_of(bytes@),
{
    let mut r: Vec<u8> = Vec::new();
    let mut i: usize = 0;
    while i < bytes.len()
        invariant
            i <= bytes@.len(),
            r@ == hex_of(bytes@.take(i as int)),
        decreases bytes@.len() - i,
    {
        let b: u8 = bytes[i];
        r.push(digit(b / 16));
        r.push(digit(b % 16));
        proof {
            let some = bytes@.take(i as int);
            let more = bytes@.take(i + 1);
            assert forall|j: int| 0 <= j < 2 * i implies hex_of(more)[j] == hex_of(some)[j] by {
                assert(j / 2 < i);
                assert(more[j / 2] == some[j / 2]);
            }
            assert((2 * i) / 2 == i && (2 * i + 1) / 2 == i);
            assert(r@ =~= hex_of(more));
        }
        i = i + 1;
    }
    assert(bytes@.take(bytes@.len() as int) =~= bytes@);
    r
}

/// The hexadecimal digits of a byte string.
pub fn hex_encode(bytes: &Vec<u8>) -> (r: String)
    ensures
        r@ == chars_of(hex_of(bytes@)),
{
    proof {
        lemma_hex_ascii(bytes@);
    }
    ascii_text(&hex_bytes(bytes))
}

/// The value of a digit in either case.
pub open spec fn digit_value(c: u8) -> Option<int> {
    if 0x30 <= c <= 0x39 {
        Some(c - 0x30)
    } else if 0x61 <= c <= 0x66 {
        Some(c - 0x61 + 10)
    } else if 0x41 <= c <= 0x46 {
        Some(c - 0x41 + 10)
    } else {
        None
    }
}

/// The value of two digits.
pub open spec fn pair_value(high: u8, low: u8) -> Option<int> {
    match (digit_value(high), digit_value(low)) {
        (Some(h), Some(l)) => Some(16 * h + l),
        _ => None,
    }
}

/// The text behind a leading `0x`, or the whole text where it has none.
pub open spec fn without_marker(text: Seq<u8>) -> Seq<u8> {
    if text.len() >= 2 && text[0] == 0x30 && text[1] == 0x78 {
        text.skip(2)
    } else {
        text
    }
}

/// All pairs have a value.
pub open spec fn all_pairs(digits: Seq<u8>) -> bool {
    forall|i: int|
        0 <= i < digits.len() / 2 ==> (#[trigger] pair_value(digits[2 * i], digits[2 * i + 1])) is Some
}

/// The bytes that the pairs stand for.
pub open spec fn pair_bytes(digits: Seq<u8>) -> Seq<u8> {
    Seq::new(
        digits.len() / 2,
        |i: int| (pair_value(digits[2 * i], digits[2 * i + 1])->0) as u8,
    )
}

/// What a hexadecimal text stands for, if it stands for anything.
pub open spec fn bytes_of_hex(text: Seq<u8>) -> Option<Seq<u8>> {
    let digits = without_marker(text);
    if digits.len() % 2 == 0 && all_pairs(digits) {
        Some(pair_bytes(digits))
    } else {
        None
    }
}

fn value_of_digit(c: u8) -> (r: Option<u8>)
    ensures
        match r {
            Some(v) => digit_value(c) == Some(v as int) && v < 16,
            None => digit_value(c) is None,
        },
{
    if 0x30 <= c && c <= 0x39 {
        Some(c - 0x30)
    } else if 0x61 <= c && c <= 0x66 {
        Some(c - 0x61 + 10)
    } else if 0x41 <= c && c <= 0x46 {
        Some(c - 0x41 + 10)
    } else {
        None
    }
}

fn value_of_pair(high: u8, low: u8) -> (r: Option<u8>)
    ensures
        match r {
            Some(v) => pair_value(high, low) == Some(v as int),
            None => pair_value(high, low) is None,
        },
{
    match (value_of_digit(high), value_of_digit(low)) {
        (Some(h), Some(l)) => Some(16 * h + l),
        _ => None,
    }
}

/// Decodes an even-length hex string, with an optional `0x` prefix. `None` where the text is not
/// one.
pub fn decode_hex(value: &str) -> (r: Option<Vec<u8>>)
    ensures
        match r {
            Some(bytes) => bytes_of_hex(encode_utf8(value@)) == Some(bytes@),
            None => bytes_of_hex(encode_utf8(value@)) is None,
        },
{
    let text: &[u8] = value.as_bytes();
    let start: usize = if text.len() >= 2 && text[0] == 0x30 && text[1] == 0x78 {
        2
    } else {
        0
    };
    let ghost digits = without_marker(text@);
    assert(digits =~= text@.skip(start as int));
    if (text.len() - start) % 2 != 0 {
        return None;
    }
    let mut bytes: Vec<u8> = Vec::new();
    let mut i: usize = start;
    while i < text.len()
        invariant
            start <= i <= text@.len(),
            start <= 2,
            text@ == encode_utf8(value@),
            digits == text@.skip(start as int),
            digits == without_marker(text@),
            digits.len() % 2 == 0,
            (i - start) % 2 == 0,
            bytes@.len() == (i - start) / 2,
            forall|j: int|
                0 <= j < bytes@.len() ==> pair_value(digits[2 * j], digits[2 * j + 1]) == Some(
                    #[trigger] bytes@[j] as int,
                ),
        decreases text@.len() - i,
    {
        let ghost j = (i - start) / 2;
        assert(digits[2 * j] == text@[i as int] && digits[2 * j + 1] == text@[i + 1]);
        match value_of_pair(text[i], text[i + 1]) {
            Some(b) => bytes.push(b),
            None => {
                assert(!all_pairs(digits)) by {
                    assert(pair_value(digits[2 * j], digits[2 * j + 1]) is None);
                }
                return None;
            },
        }
        i = i + 2;
    }
    proof {
        assert(bytes@.len() == digits.len() / 2);
        assert forall|j: int| 0 <= j < digits.len() / 2 implies (#[trigger] pair_value(
            digits[2 * j],
            digits[2 * j + 1],
        )) is Some by {
            assert(pair_value(digits[2 * j], digits[2 * j + 1]) == Some(bytes@[j] as int));
        }
        assert(bytes@ =~= pair_bytes(digits));
    }
    Some(bytes)
}

/// What [`hex_encode`] writes, [`decode_hex`] reads back.
pub proof fn law_hex_round_trip(bytes: Seq<u8>)
    ensures
        bytes_of_hex(encode_utf8(chars_of(hex_of(bytes)))) == Some(bytes),
{
    let digits = hex_of(bytes);
    lemma_hex_ascii(bytes);
    lemma_ascii_bytes(digits);
    if digits.len() >= 2 {
        assert(0 <= bytes[0] as int % 16 < 16);
        assert(digits[1] != 0x78);
    }
    assert(without_marker(digits) == digits);
    assert forall|i: int| 0 <= i < digits.len() / 2 implies (#[trigger] pair_value(
        digits[2 * i],
        digits[2 * i + 1],
    )) == Some(bytes[i] as int) by {
        let b = bytes[i] as int;
        assert((2 * i) % 2 == 0 && (2 * i) / 2 == i && (2 * i + 1) % 2 == 1 && (2 * i + 1) / 2 == i);
        assert(0 <= b / 16 < 16 && 0 <= b % 16 < 16 && b == 16 * (b / 16) + b % 16);
        assert(digits[2 * i] == hex_digit(b / 16));
        assert(digits[2 * i + 1] == hex_digit(b % 16));
    }
    assert(pair_bytes(digits) =~= bytes);
}

/// The marker changes nothing: a text of digits stands for the same bytes with `0x` before it.
pub proof fn law_marker_is_optional(digits: Seq<u8>)
    requires
        without_marker(digits) == digits,
    ensures
        bytes_of_hex(seq![0x30u8, 0x78u8] + digits) == bytes_of_hex(digits),
{
    let marked = seq![0x30u8, 0x78u8] + digits;
    assert(marked.skip(2) =~= digits);
}

/// A byte is written as two digits, first the one of its upper half: the digits `0` to `9` and the
/// lowercase letters `a` to `f`.
pub proof fn law_each_byte_has_its_two_digits(bytes: Seq<u8>, i: int)
    ensures
        hex_of(bytes).len() == 2 * bytes.len(),
        0 <= i < bytes.len() ==> {
            let high = bytes[i] as int / 16;
            let low = bytes[i] as int % 16;
            &&& hex_of(bytes)[2 * i] == (if high < 10 {
                0x30 + high
            } else {
                0x57 + high
            })
            &&& hex_of(bytes)[2 * i + 1] == (if low < 10 {
                0x30 + low
            } else {
                0x57 + low
            })
        },
{
    if 0 <= i < bytes.len() {
        assert((2 * i) % 2 == 0 && (2 * i) / 2 == i && (2 * i + 1) % 2 == 1 && (2 * i + 1) / 2
            == i);
        assert(0 <= bytes[i] as int / 16 < 16 && 0 <= bytes[i] as int % 16 < 16);
    }
}

/// A text stands for bytes exactly if what is left of it without a leading `0x` is an even number of
/// digits, of either case; and then for as many bytes as there are pairs of digits, however many that
/// is, each sixteen times its first digit and its second.
pub proof fn law_digits_stand_for_their_bytes(text: Seq<u8>)
    ensures
        ({
            let start: int = if text.len() >= 2 && text[0] == 0x30 && text[1] == 0x78 {
                2
            } else {
                0
            };
            let value = |c: u8|
                if c <= 0x39 {
                    c - 0x30
                } else if c <= 0x46 {
                    c - 0x37
                } else {
                    c - 0x57
                };
            &&& bytes_of_hex(text) is Some <==> {
                &&& (text.len() - start) % 2 == 0
                &&& forall|i: int|
                    start <= i < text.len() ==> {
                        ||| 0x30 <= #[trigger] text[i] <= 0x39
                        ||| 0x41 <= text[i] <= 0x46
                        ||| 0x61 <= text[i] <= 0x66
                    }
            }
            &&& bytes_of_hex(text) matches Some(bytes) ==> {
                &&& 2 * bytes.len() == text.len() - start
                &&& forall|i: int|
                    0 <= i < bytes.len() ==> #[trigger] bytes[i] == 16 * value(
                        text[start + 2 * i],
                    ) + value(text[start + 2 * i + 1])
            }
        }),
{
    let start: int = if text.len() >= 2 && text[0] == 0x30 && text[1] == 0x78 {
        2
    } else {
        0
    };
    let digits = without_marker(text);
    assert(digits =~= text.skip(start));
    if bytes_of_hex(text) is Some {
        assert forall|i: int| start <= i < text.len() implies {
            ||| 0x30 <= #[trigger] text[i] <= 0x39
            ||| 0x41 <= text[i] <= 0x46
            ||| 0x61 <= text[i] <= 0x66
        } by {
            let j = (i - start) / 2;
            assert(pair_value(digits[2 * j], digits[2 * j + 1]) is Some);
            assert(i == start + 2 * j || i == start + 2 * j + 1);
            assert(text[i] == digits[i - start]);
        }
        let bytes = bytes_of_hex(text)->0;
        assert forall|i: int| 0 <= i < bytes.len() implies #[trigger] bytes[i] == (pair_value(
            text[start + 2 * i],
            text[start + 2 * i + 1],
        )->0) && pair_value(text[start + 2 * i], text[start + 2 * i + 1]) is Some by {
            assert(digits[2 * i] == text[start + 2 * i]);
            assert(digits[2 * i + 1] == text[start + 2 * i + 1]);
            assert(pair_value(digits[2 * i], digits[2 * i + 1]) is Some);
        }
    }
    if (text.len() - start) % 2 == 0 && forall|i: int|
        start <= i < text.len() ==> {
            ||| 0x30 <= #[trigger] text[i] <= 0x39
            ||| 0x41 <= text[i] <= 0x46
            ||| 0x61 <= text[i] <= 0x66
        } {
        assert forall|j: int| 0 <= j < digits.len() / 2 implies (#[trigger] pair_value(
            digits[2 * j],
            digits[2 * j + 1],
        )) is Some by {
            assert(digits[2 * j] == text[start + 2 * j]);
            assert(digits[2 * j + 1] == text[start + 2 * j + 1]);
        }
    }
}

} // verus!
