//! Conversions between text and its UTF-8 bytes.
use vstd::prelude::*;
use vstd::utf8::{encode_utf8, encode_utf8_valid_utf8, is_ascii_chars, is_ascii_chars_encode_utf8, valid_utf8};

verus! {

/// Relies on `String::from_utf8`: it succeeds exactly on valid UTF-8, and the
/// string it returns holds those bytes.
#[verifier::external_body]
fn string_from_utf8(b: Vec<u8>) -> (r: Option<String>)
    ensures
        r is Some <==> valid_utf8(b@),
        r matches Some(s) ==> encode_utf8(s@) == b@,
{
    String::from_utf8(b).ok()
}

/// Appends `b` to `out`.
pub fn push_all(out: &mut Vec<u8>, b: &[u8])
    ensures
        final(out)@ == old(out)@ + b@,
{
    let mut i: usize = 0;
    while i < b.len()
        invariant
            i <= b@.len(),
            out@ == old(out)@ + b@.subrange(0, i as int),
        decreases b@.len() - i,
    {
        out.push(b[i]);
        i = i + 1;
        assert(out@ =~= old(out)@ + b@.subrange(0, i as int));
    }
    assert(b@.subrange(0, i as int) =~= b@);
}

/// The UTF-8 bytes of `s`.
pub fn utf8_bytes(s: &str) -> (r: &[u8])
    ensures
        r@ == encode_utf8(s@),
{
    s.as_bytes()
}

/// The text held by `b[start..end]`, when those bytes are valid UTF-8.
pub fn text_from(b: &[u8], start: usize, end: usize) -> (r: Option<String>)
    requires
        start <= end <= b@.len(),
    ensures
        r is Some <==> valid_utf8(b@.subrange(start as int, end as int)),
        r matches Some(s) ==> encode_utf8(s@) == b@.subrange(start as int, end as int),
{
    let mut v: Vec<u8> = Vec::new();
    let mut i: usize = start;
    while i < end
        invariant
            start <= i <= end <= b@.len(),
            v@ == b@.subrange(start as int, i as int),
        decreases end - i,
    {
        v.push(b[i]);
        i = i + 1;
        assert(v@ =~= b@.subrange(start as int, i as int));
    }
    string_from_utf8(v)
}

/// The text whose UTF-8 bytes are `b`, when they are valid UTF-8.
pub fn text_of(b: Vec<u8>) -> (r: Option<String>)
    ensures
        r is Some <==> valid_utf8(b@),
        r matches Some(s) ==> encode_utf8(s@) == b@,
{
    string_from_utf8(b)
}

/// Every byte of `b` is ASCII.
pub open spec fn all_ascii(b: Seq<u8>) -> bool {
    forall|i: int| 0 <= i < b.len() ==> #[trigger] b[i] < 128
}

/// ASCII bytes are valid UTF-8.
pub proof fn lemma_ascii_valid(b: Seq<u8>)
    requires
        all_ascii(b),
    ensures
        valid_utf8(b),
{
    let chars = Seq::new(b.len(), |i: int| b[i] as char);
    assert forall|i: int| 0 <= i < chars.len() implies '\0' <= #[trigger] chars[i] <= '\u{7f}' by {
        assert(b[i] < 128);
        assert((b[i] as char) as u32 == b[i] as u32);
    }
    assert(is_ascii_chars(chars));
    is_ascii_chars_encode_utf8(chars);
    assert forall|i: int| 0 <= i < b.len() implies encode_utf8(chars)[i] == b[i] by {
        assert(chars[i] as u8 == b[i]);
    }
    assert(encode_utf8(chars) =~= b);
    encode_utf8_valid_utf8(chars);
}

/// The text whose bytes are the ASCII bytes `b`.
pub fn ascii_string(b: Vec<u8>) -> (r: String)
    requires
        all_ascii(b@),
    ensures
        encode_utf8(r@) == b@,
{
    proof {
        lemma_ascii_valid(b@);
    }
    match string_from_utf8(b) {
        Some(s) => s,
        None => String::new(),
    }
}

} // verus!
