//! Keys of the chromosome tree: fixed-width byte strings, padded with zero
//! bytes, ordered byte by byte, and read as UTF-8 where a name is wanted.

use vstd::prelude::*;
use vstd::utf8::{decode_utf8, encode_utf8, valid_utf8, partial_valid_utf8};
use vstd::utf8::{encode_utf8_decode_utf8, encode_utf8_valid_utf8, partial_valid_utf8_extend_ascii_block};
use vstd::string::StrSliceExecFns;
use vstd::string::StringSliceAdditionalSpecFns;

verus! {

/// `count` zero bytes.
pub open spec fn zeros(count: int) -> Seq<u8> {
    Seq::new(count as nat, |i: int| 0u8)
}

/// `name` followed by as many zero bytes as bring it to `width` bytes; `name`
/// itself where it is that long already.
pub open spec fn padded_key(name: Seq<u8>, width: int) -> Seq<u8> {
    name + zeros(width - name.len())
}

/// Whether `a` comes before `b` in byte-wise lexicographic order, decided from
/// index `from` on.
pub open spec fn key_less_from(a: Seq<u8>, b: Seq<u8>, from: int) -> bool
    decreases a.len() - from,
{
    if from < 0 || from >= a.len() || from >= b.len() {
        a.len() < b.len()
    } else if a[from] != b[from] {
        a[from] < b[from]
    } else {
        key_less_from(a, b, from + 1)
    }
}

/// Whether `a` comes before `b` in byte-wise lexicographic order.
pub open spec fn key_less(a: Seq<u8>, b: Seq<u8>) -> bool {
    key_less_from(a, b, 0)
}

/// Decides byte-wise lexicographic order.
pub fn is_key_less(a: &[u8], b: &[u8]) -> (less: bool)
    ensures
        less == key_less(a@, b@),
{
    let mut i: usize = 0;
    while i < a.len() && i < b.len()
        invariant
            i <= a.len(),
            i <= b.len(),
            key_less(a@, b@) == key_less_from(a@, b@, i as int),
        decreases a.len() - i,
    {
        if a[i] != b[i] {
            return a[i] < b[i];
        }
        i = i + 1;
    }
    a.len() < b.len()
}

/// Decides whether two byte strings are the same.
pub fn is_key_equal(a: &[u8], b: &[u8]) -> (same: bool)
    ensures
        same == (a@ == b@),
{
    if a.len() != b.len() {
        return false;
    }
    let mut i: usize = 0;
    while i < a.len()
        invariant
            i <= a.len(),
            a.len() == b.len(),
            forall|j: int| 0 <= j < i ==> a@[j] == b@[j],
        decreases a.len() - i,
    {
        if a[i] != b[i] {
            return false;
        }
        i = i + 1;
    }
    assert(a@ =~= b@);
    true
}

/// The bytes of `name` padded with zero bytes to `width`.
pub(crate) fn pad_key(name: &str, width: usize) -> (key: Vec<u8>)
    requires
        name.spec_bytes().len() <= width,
    ensures
        key@ == padded_key(name.spec_bytes(), width as int),
{
    let raw = name.as_bytes();
    let mut key: Vec<u8> = Vec::with_capacity(width);
    let mut i: usize = 0;
    while i < raw.len()
        invariant
            i <= raw.len(),
            raw@ == name.spec_bytes(),
            key@ == raw@.subrange(0, i as int),
        decreases raw.len() - i,
    {
        key.push(raw[i]);
        assert(key@ =~= raw@.subrange(0, i + 1));
        i = i + 1;
    }
    assert(key@ =~= raw@);
    while i < width
        invariant
            raw.len() <= i <= width,
            raw@ == name.spec_bytes(),
            key@ == raw@ + zeros(i - raw.len()),
        decreases width - i,
    {
        key.push(0u8);
        assert(key@ =~= raw@ + zeros(i + 1 - raw.len()));
        i = i + 1;
    }
    key
}

/// A name padded with zero bytes is still UTF-8, and its bytes begin with
/// the bytes of the name.
pub proof fn lemma_padded_name_is_utf8(name: Seq<char>, width: int)
    requires
        encode_utf8(name).len() <= width,
    ensures
        valid_utf8(padded_key(encode_utf8(name), width)),
{
    let raw = encode_utf8(name);
    let key = padded_key(raw, width);
    encode_utf8_valid_utf8(name);
    assert(key.subrange(0, raw.len() as int) =~= raw);
    assert(partial_valid_utf8(key, raw.len() as int));
    assert forall|i: int| raw.len() <= i < key.len() implies #[trigger] vstd::utf8::is_leading_byte_width_1(key[i]) by {
        assert(key[i] == 0u8);
    }
    partial_valid_utf8_extend_ascii_block(key, raw.len() as int, key.len() as int);
    assert(key.subrange(0, key.len() as int) =~= key);
}

/// The index of the first character at or after `from` that is not a
/// zero character, or the length of `text` where none follows.
pub open spec fn nulls_end(text: Seq<char>, from: int) -> int
    decreases text.len() - from,
{
    if from < 0 || from >= text.len() {
        text.len() as int
    } else if text[from] != '\0' {
        from
    } else {
        nulls_end(text, from + 1)
    }
}

/// The index of the first zero character at or after `from`, or the length
/// of `text` where none follows.
pub open spec fn name_end(text: Seq<char>, from: int) -> int
    decreases text.len() - from,
{
    if from < 0 || from >= text.len() {
        text.len() as int
    } else if text[from] == '\0' {
        from
    } else {
        name_end(text, from + 1)
    }
}

/// A stored name without its padding: what stands between the zero
/// characters at its front and the next zero character.
pub open spec fn stripped(text: Seq<char>) -> Seq<char> {
    text.subrange(nulls_end(text, 0), name_end(text, nulls_end(text, 0)))
}

/// Takes the padding off a stored name.
pub fn strip_null(inp: &str) -> (out: &str)
    ensures
        out@ == stripped(inp@),
{
    let len = inp.unicode_len();
    let mut start: usize = 0;
    while start < len && inp.get_char(start) == '\0'
        invariant
            start <= len,
            len == inp@.len(),
            nulls_end(inp@, 0) == nulls_end(inp@, start as int),
        decreases len - start,
    {
        start = start + 1;
    }
    let mut stop: usize = start;
    while stop < len && inp.get_char(stop) != '\0'
        invariant
            start <= stop <= len,
            len == inp@.len(),
            name_end(inp@, start as int) == name_end(inp@, stop as int),
        decreases len - stop,
    {
        stop = stop + 1;
    }
    inp.substring_char(start, stop)
}

/// Decides whether two strings are the same text.
pub fn same_text(a: &str, b: &str) -> (same: bool)
    ensures
        same == (a@ == b@),
{
    proof {
        encode_utf8_decode_utf8(a@);
        encode_utf8_decode_utf8(b@);
    }
    is_key_equal(a.as_bytes(), b.as_bytes())
}

/// `std::string::FromUtf8Error`, the refusal of bytes that are not UTF-8.
#[verifier::external_type_specification]
#[verifier::external_body]
pub struct ExFromUtf8Error(std::string::FromUtf8Error);

/// Turns bytes into a string. Calls `String::from_utf8`, which succeeds
/// exactly on well-formed UTF-8 and then yields the characters that the
/// bytes encode.
#[verifier::external_body]
pub(crate) fn string_from_utf8(bytes: Vec<u8>) -> (text: Result<String, std::string::FromUtf8Error>)
    ensures
        text is Ok <==> valid_utf8(bytes@),
        text matches Ok(s) ==> s@ == decode_utf8(bytes@),
{
    String::from_utf8(bytes)
}

} // verus!
