//! Building text character by character.

use vstd::prelude::*;
use vstd::utf8::{encode_utf8, is_ascii_chars, is_ascii_chars_encode_utf8};

verus! {

/// `String::push` of std: the character is appended to the text.
pub assume_specification[ String::push ](text: &mut String, c: char)
    ensures
        final(text)@ == old(text)@.push(c),
;

/// ASCII bytes as characters.
pub open spec fn chars_of(bytes: Seq<u8>) -> Seq<char> {
    bytes.map_values(|b: u8| b as char)
}

/// All bytes are ASCII.
pub open spec fn ascii(bytes: Seq<u8>) -> bool {
    forall|i: int| 0 <= i < bytes.len() ==> #[trigger] bytes[i] < 128
}

/// ASCII text is encoded as itself.
pub proof fn lemma_ascii_bytes(bytes: Seq<u8>)
    requires
        ascii(bytes),
    ensures
        encode_utf8(chars_of(bytes)) == bytes,
{
    let chars = chars_of(bytes);
    assert forall|i: int| 0 <= i < chars.len() implies (chars[i] as u8) == bytes[i] && (chars[i]
        as u32) < 128 by {
        assert(bytes[i] < 128);
    }
    assert(is_ascii_chars(chars));
    is_ascii_chars_encode_utf8(chars);
    assert(encode_utf8(chars) =~= bytes);
}

/// The text that ASCII bytes spell.
pub fn ascii_text(bytes: &Vec<u8>) -> (r: String)
    requires
        ascii(bytes@),
    ensures
        r@ == chars_of(bytes@),
        encode_utf8(r@) == bytes@,
{
    let mut r: String = String::new();
    let mut i: usize = 0;
    while i < bytes.len()
        invariant
            i <= bytes@.len(),
            r@ == chars_of(bytes@.take(i as int)),
        decreases bytes@.len() - i,
    {
        r.push(bytes[i] as char);
        assert(chars_of(bytes@.take(i + 1)) =~= chars_of(bytes@.take(i as int)).push(
            bytes@[i as int] as char,
        ));
        i = i + 1;
    }
    assert(bytes@.take(bytes@.len() as int) =~= bytes@);
    proof {
        lemma_ascii_bytes(bytes@);
    }
    r
}

/// The characters of a text.
pub fn to_chars(text: &str) -> (r: Vec<char>)
    ensures
        r@ == text@,
{
    let mut r: Vec<char> = Vec::new();
    for c in iter: text.chars()
        invariant
            r@ == iter.seq().take(iter.index()),
            iter.seq() == text@,
    {
        r.push(c);
        assert(r@ =~= iter.seq().take(iter.index() + 1));
    }
    assert(r@ =~= text@);
    r
}

/// The text of characters.
pub fn from_chars(chars: &Vec<char>) -> (r: String)
    ensures
        r@ == chars@,
{
    let mut r: String = String::new();
    let mut i: usize = 0;
    while i < chars.len()
        invariant
            i <= chars@.len(),
            r@ == chars@.take(i as int),
        decreases chars@.len() - i,
    {
        r.push(chars[i]);
        assert(chars@.take(i + 1) =~= chars@.take(i as int).push(chars@[i as int]));
        i = i + 1;
    }
    assert(chars@.take(chars@.len() as int) =~= chars@);
    r
}

/// A text without the character at its end, as often as it is there.
pub open spec fn trimmed_end(text: Seq<char>, c: char) -> Seq<char>
    decreases text.len(),
{
    if text.len() > 0 && text.last() == c {
        trimmed_end(text.drop_last(), c)
    } else {
        text
    }
}

/// Takes the character off the end of a text, as often as it is there.
pub fn trim_end(chars: &mut Vec<char>, c: char)
    ensures
        final(chars)@ == trimmed_end(old(chars)@, c),
{
    let ghost start = chars@;
    while chars.len() > 0 && chars[chars.len() - 1] == c
        invariant
            trimmed_end(chars@, c) == trimmed_end(start, c),
        decreases chars@.len(),
    {
        chars.pop();
    }
}

/// What is taken off the end of a text is that character and nothing else, and all of it.
pub proof fn law_only_the_end_is_trimmed(text: Seq<char>, c: char)
    ensures
        ({
            let left = trimmed_end(text, c);
            &&& left.len() <= text.len()
            &&& left == text.take(left.len() as int)
            &&& forall|i: int| left.len() <= i < text.len() ==> #[trigger] text[i] == c
            &&& left.len() > 0 ==> left.last() != c
        }),
    decreases text.len(),
{
    let left = trimmed_end(text, c);
    if text.len() > 0 && text.last() == c {
        let init = text.drop_last();
        law_only_the_end_is_trimmed(init, c);
        assert(init.take(left.len() as int) =~= text.take(left.len() as int));
        assert forall|i: int| left.len() <= i < text.len() implies #[trigger] text[i] == c by {
            if i < init.len() {
                assert(init[i] == text[i]);
            }
        }
    } else {
        assert(text.take(text.len() as int) =~= text);
    }
}

/// ASCII bytes are told as the characters of the same numbers.
pub proof fn law_ascii_bytes_are_their_characters(bytes: Seq<u8>)
    ensures
        chars_of(bytes).len() == bytes.len(),
        forall|i: int|
            0 <= i < bytes.len() ==> (#[trigger] chars_of(bytes)[i]) as u32 == bytes[i] as u32,
        ascii(bytes) <==> forall|i: int| 0 <= i < bytes.len() ==> #[trigger] bytes[i] < 128,
{
}

} // verus!
