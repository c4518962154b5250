//! Bytes and text: when a slice of UTF-8 source is itself UTF-8, what ASCII
//! bytes decode to, and the conversions between bytes and strings that the
//! scanner needs.

use vstd::prelude::*;
use vstd::slice::{slice_subrange, slice_to_vec};
use vstd::string::StringSliceAdditionalSpecFns;
use vstd::utf8::*;

verus! {

/// A byte of the ASCII range.
pub open spec fn is_ascii_byte(b: u8) -> bool {
    b <= 0x7f
}

/// The characters with the codes of the given bytes.
pub open spec fn as_chars(bytes: Seq<u8>) -> Seq<char> {
    bytes.map_values(|b: u8| b as char)
}

/// ASCII bytes are UTF-8, and decode to the characters with their codes.
pub proof fn lemma_ascii_is_utf8(bytes: Seq<u8>)
    requires
        forall|i: int| 0 <= i < bytes.len() ==> is_ascii_byte(#[trigger] bytes[i]),
    ensures
        valid_utf8(bytes),
        decode_utf8(bytes) == as_chars(bytes),
{
    let chars = as_chars(bytes);
    assert(is_ascii_chars(chars)) by {
        assert forall|i: int| 0 <= i < chars.len() implies '\0' <= #[trigger] chars[i]
            <= '\u{7f}' by {
            assert(is_ascii_byte(bytes[i]));
        }
    }
    is_ascii_chars_encode_utf8(chars);
    assert(encode_utf8(chars) =~= bytes) by {
        assert forall|i: int| 0 <= i < bytes.len() implies encode_utf8(chars)[i] == bytes[i] by {
            assert(is_ascii_byte(bytes[i]));
            assert(chars[i] as u8 == bytes[i]);
        }
    }
    encode_utf8_valid_utf8(chars);
    encode_utf8_decode_utf8(chars);
}

/// Whether the index `at` of `src` is at an end of `src` or next to an ASCII
/// byte, before it or after it. In UTF-8 text no character is encoded across
/// such an index.
pub open spec fn beside_ascii(src: Seq<u8>, at: int) -> bool {
    ||| at == 0
    ||| at == src.len()
    ||| 0 < at <= src.len() && is_ascii_byte(src[at - 1])
    ||| 0 <= at < src.len() && is_ascii_byte(src[at])
}

proof fn lemma_utf8_up_to(src: Seq<u8>, to: int)
    requires
        valid_utf8(src),
        0 <= to <= src.len(),
        beside_ascii(src, to),
    ensures
        valid_utf8(src.subrange(0, to)),
{
    if to == src.len() {
        assert(src.subrange(0, to) =~= src);
    } else if is_ascii_byte(src[to]) {
        is_char_boundary_iff_not_is_continuation_byte(src, to);
        valid_utf8_split(src, to);
    } else if to > 0 {
        is_char_boundary_iff_not_is_continuation_byte(src, to - 1);
        valid_utf8_split(src, to - 1);
        let last = seq![src[to - 1]];
        lemma_ascii_is_utf8(last);
        valid_utf8_concat(src.subrange(0, to - 1), last);
        assert(src.subrange(0, to - 1) + last =~= src.subrange(0, to));
    }
}

proof fn lemma_utf8_from(src: Seq<u8>, from: int)
    requires
        valid_utf8(src),
        0 <= from <= src.len(),
        beside_ascii(src, from),
    ensures
        valid_utf8(src.subrange(from, src.len() as int)),
{
    let len = src.len() as int;
    if from == 0 {
        assert(src.subrange(from, len) =~= src);
    } else if from == len {
    } else if is_ascii_byte(src[from]) {
        is_char_boundary_iff_not_is_continuation_byte(src, from);
        valid_utf8_split(src, from);
    } else {
        is_char_boundary_iff_not_is_continuation_byte(src, from - 1);
        valid_utf8_split(src, from - 1);
        let before = src.subrange(from - 1, len);
        assert(before[0] == src[from - 1]);
        assert(pop_first_scalar(before) =~= src.subrange(from, len));
    }
}

/// In UTF-8 text, what lies between two indices that are each at an end of
/// the text or next to an ASCII byte is UTF-8 text.
pub proof fn lemma_utf8_between_ascii(src: Seq<u8>, from: int, to: int)
    requires
        valid_utf8(src),
        0 <= from <= to <= src.len(),
        beside_ascii(src, from),
        beside_ascii(src, to),
    ensures
        valid_utf8(src.subrange(from, to)),
{
    lemma_utf8_up_to(src, to);
    let head = src.subrange(0, to);
    if from < to {
        assert(head[from] == src[from]);
        if from > 0 {
            assert(head[from - 1] == src[from - 1]);
        }
    }
    lemma_utf8_from(head, from);
    assert(head.subrange(from, to) =~= src.subrange(from, to));
}

/// The string that the bytes encode, or nothing where they are not UTF-8.
///
/// This calls `String::from_utf8`, and its contract is not proved but taken
/// from what std documents of that function: it checks that the bytes are
/// valid UTF-8 and, if they are, makes a string of those very bytes; if they
/// are not, it returns an error, which becomes `None` here. What valid UTF-8
/// is, and which text bytes encode, is what `vstd::utf8` defines.
#[verifier::external_body]
fn string_from_utf8(bytes: Vec<u8>) -> (r: Option<String>)
    ensures
        r is Some <==> valid_utf8(bytes@),
        r matches Some(text) ==> text@ == decode_utf8(bytes@),
{
    match String::from_utf8(bytes) {
        Ok(text) => Some(text),
        Err(_) => None,
    }
}

/// Adds the character `c` at the end of `text`.
///
/// This calls `String::push`, and its contract is not proved but taken from
/// what std documents of that function: it appends the given character to
/// the end of the string.
#[verifier::external_body]
pub(crate) fn push_char(text: &mut String, c: char)
    ensures
        final(text)@ == old(text)@.push(c),
{
    text.push(c)
}

/// The text that the bytes `from..to` of `src` encode.
pub(crate) fn text_between(src: &Vec<u8>, from: usize, to: usize) -> (text: String)
    requires
        from <= to <= src.len(),
        valid_utf8(src@.subrange(from as int, to as int)),
    ensures
        text@ == decode_utf8(src@.subrange(from as int, to as int)),
{
    string_from_utf8(bytes_between(src, from, to)).unwrap()
}

/// A copy of the bytes `from..to` of `src`.
pub(crate) fn bytes_between(src: &Vec<u8>, from: usize, to: usize) -> (bytes: Vec<u8>)
    requires
        from <= to <= src.len(),
    ensures
        bytes@ == src@.subrange(from as int, to as int),
{
    slice_to_vec(slice_subrange(src.as_slice(), from, to))
}

/// Whether two strings hold the same text.
pub(crate) fn same_text(a: &str, b: &str) -> (same: bool)
    ensures
        same == (a@ == b@),
{
    let x = a.as_bytes();
    let y = b.as_bytes();
    proof {
        encode_utf8_decode_utf8(a@);
        encode_utf8_decode_utf8(b@);
    }
    if x.len() != y.len() {
        return false;
    }
    let mut i: usize = 0;
    while i < x.len()
        invariant
            x.len() == y.len(),
            i <= x.len(),
            forall|k: int| 0 <= k < i ==> x@[k] == y@[k],
            x@ == a.spec_bytes(),
            y@ == b.spec_bytes(),
            decode_utf8(a.spec_bytes()) == a@,
            decode_utf8(b.spec_bytes()) == b@,
        decreases x.len() - i,
    {
        if x[i] != y[i] {
            return false;
        }
        i += 1;
    }
    assert(x@ =~= y@);
    true
}

} // verus!
