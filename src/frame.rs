//! The RESP wire format as a mathematical model: frames, their encoding, and
//! the decoder that reads one frame off the front of a byte sequence.
use crate::decimal::{all_digits, decimal, lemma_decimal_reads_back, parsed_len};
use vstd::prelude::*;
use crate::text::{all_ascii, lemma_ascii_valid};
use vstd::utf8::{valid_utf8, valid_utf8_concat};

verus! {

/// Carriage return.
pub const CR: u8 = 13;

/// Line feed.
pub const LF: u8 = 10;

/// Type byte of a simple string.
pub const SIMPLE_TAG: u8 = 43;

/// Type byte of a bulk string (and of a snapshot blob).
pub const BULK_TAG: u8 = 36;

/// Type byte of an array.
pub const ARRAY_TAG: u8 = 42;

/// A RESP term as it travels on the wire; text is held as its UTF-8 bytes.
pub enum Frame {
    Simple(Seq<u8>),
    Bulk(Seq<u8>),
    Array(Seq<Frame>),
    Rdb(Seq<u8>),
}

/// Why a byte sequence does not start with a frame.
#[derive(Clone, Copy, Debug, PartialEq, Eq, Structural)]
pub enum ProtocolError {
    /// The bytes end before the frame does.
    Incomplete,
    /// A length or count line is not a decimal number that fits in `usize`.
    BadLength,
    /// A bulk body is not followed by CRLF.
    MissingTerminator,
    /// The first byte names no frame type.
    UnknownType,
    /// A text body is not valid UTF-8.
    InvalidText,
}

pub open spec fn crlf() -> Seq<u8> {
    seq![CR, LF]
}

/// `tag`, the decimal form of `n`, CRLF: the first line of a bulk string,
/// array or snapshot.
pub open spec fn header(tag: u8, n: nat) -> Seq<u8> {
    seq![tag] + decimal(n) + crlf()
}

/// The encoding of a frame.
pub open spec fn wire(f: Frame) -> Seq<u8>
    decreases f,
{
    match f {
        Frame::Simple(s) => seq![SIMPLE_TAG] + s + crlf(),
        Frame::Bulk(s) => header(BULK_TAG, s.len()) + s + crlf(),
        Frame::Array(items) => header(ARRAY_TAG, items.len()) + wire_all(items),
        Frame::Rdb(b) => header(BULK_TAG, b.len()) + b,
    }
}

/// The encodings of `items`, one after the other.
pub open spec fn wire_all(items: Seq<Frame>) -> Seq<u8>
    decreases items,
{
    if items.len() == 0 {
        Seq::empty()
    } else {
        wire(items[0]) + wire_all(items.drop_first())
    }
}

/// The index of the first CRLF in `b` that starts at `i` or later.
pub open spec fn crlf_from(b: Seq<u8>, i: int) -> Option<int>
    decreases b.len() - i,
{
    if i < 0 || i + 1 >= b.len() {
        None
    } else if b[i] == CR && b[i + 1] == LF {
        Some(i)
    } else {
        crlf_from(b, i + 1)
    }
}

pub proof fn lemma_crlf_from(b: Seq<u8>, i: int)
    ensures
        crlf_from(b, i) matches Some(k) ==> i <= k && k + 2 <= b.len() && b[k] == CR && b[k + 1]
            == LF && no_crlf_between(b, i, k),
        crlf_from(b, i) is None ==> 0 <= i ==> no_crlf_between(b, i, b.len() - 1),
    decreases b.len() - i,
{
    if !(i < 0 || i + 1 >= b.len()) && !(b[i] == CR && b[i + 1] == LF) {
        lemma_crlf_from(b, i + 1);
    }
}

/// No CRLF starts at an index in `[i, j)`.
pub open spec fn no_crlf_between(b: Seq<u8>, i: int, j: int) -> bool {
    forall|m: int| i <= m < j ==> !(#[trigger] b[m] == CR && b[m + 1] == LF)
}

/// `s` holds no CRLF pair.
pub open spec fn no_crlf(s: Seq<u8>) -> bool {
    no_crlf_between(s, 0, s.len() - 1)
}

/// Reads one frame off the front of `b`: the frame and the number of bytes it
/// spans, or why there is none.
pub open spec fn decode_frame(b: Seq<u8>) -> Result<(Frame, nat), ProtocolError>
    decreases b.len(), 0nat, 0nat,
    via decode_frame_decreases
{
    if b.len() == 0 {
        Err(ProtocolError::Incomplete)
    } else if b[0] != SIMPLE_TAG && b[0] != BULK_TAG && b[0] != ARRAY_TAG {
        Err(ProtocolError::UnknownType)
    } else {
        match crlf_from(b, 1) {
            None => Err(ProtocolError::Incomplete),
            Some(k) => {
                let line = b.subrange(1, k);
                if b[0] == SIMPLE_TAG {
                    if valid_utf8(line) {
                        Ok((Frame::Simple(line), (k + 2) as nat))
                    } else {
                        Err(ProtocolError::InvalidText)
                    }
                } else {
                    match parsed_len(line) {
                        None => Err(ProtocolError::BadLength),
                        Some(n) => {
                            if b[0] == BULK_TAG {
                                let end = k + 2 + n;
                                if b.len() < end + 2 {
                                    Err(ProtocolError::Incomplete)
                                } else if b[end] != CR || b[end + 1] != LF {
                                    Err(ProtocolError::MissingTerminator)
                                } else if !valid_utf8(b.subrange(k + 2, end)) {
                                    Err(ProtocolError::InvalidText)
                                } else {
                                    Ok((Frame::Bulk(b.subrange(k + 2, end)), (end + 2) as nat))
                                }
                            } else {
                                match decode_items(b.subrange(k + 2, b.len() as int), n) {
                                    Err(e) => Err(e),
                                    Ok((items, c)) => Ok((Frame::Array(items), (k + 2 + c) as nat)),
                                }
                            }
                        }
                    }
                }
            }
        }
    }
}

#[via_fn]
proof fn decode_frame_decreases(b: Seq<u8>) {
    lemma_crlf_from(b, 1);
}

/// Reads `n` frames one after the other off the front of `b`.
pub open spec fn decode_items(b: Seq<u8>, n: nat) -> Result<(Seq<Frame>, nat), ProtocolError>
    decreases b.len(), 1nat, n,
{
    if n == 0 {
        Ok((Seq::empty(), 0))
    } else {
        match decode_frame(b) {
            Err(e) => Err(e),
            Ok((f, c)) => {
                if c > b.len() {
                    Err(ProtocolError::Incomplete)
                } else {
                    match decode_items(b.subrange(c as int, b.len() as int), (n - 1) as nat) {
                        Err(e) => Err(e),
                        Ok((fs, c2)) => Ok((seq![f] + fs, c + c2)),
                    }
                }
            }
        }
    }
}

/// Reads frames off `b` until it is used up.
pub open spec fn decode_stream(b: Seq<u8>) -> Result<Seq<Frame>, ProtocolError>
    decreases b.len(),
{
    if b.len() == 0 {
        Ok(Seq::empty())
    } else {
        match decode_frame(b) {
            Err(e) => Err(e),
            Ok((f, c)) => {
                if c == 0 || c > b.len() {
                    Err(ProtocolError::Incomplete)
                } else {
                    match decode_stream(b.subrange(c as int, b.len() as int)) {
                        Err(e) => Err(e),
                        Ok(fs) => Ok(seq![f] + fs),
                    }
                }
            }
        }
    }
}

/// Reads a snapshot blob, `$<len>\r\n<bytes>` with no CRLF after the bytes,
/// off the front of `b`.
pub open spec fn decode_rdb(b: Seq<u8>) -> Result<(Frame, nat), ProtocolError> {
    if b.len() == 0 {
        Err(ProtocolError::Incomplete)
    } else if b[0] != BULK_TAG {
        Err(ProtocolError::UnknownType)
    } else {
        match crlf_from(b, 1) {
            None => Err(ProtocolError::Incomplete),
            Some(k) => match parsed_len(b.subrange(1, k)) {
                None => Err(ProtocolError::BadLength),
                Some(n) => {
                    if b.len() < k + 2 + n {
                        Err(ProtocolError::Incomplete)
                    } else {
                        Ok((Frame::Rdb(b.subrange(k + 2, k + 2 + n)), (k + 2 + n) as nat))
                    }
                }
            },
        }
    }
}

/// Frames that read back as themselves: no snapshot blob anywhere, text that
/// is valid UTF-8, no CRLF inside a simple string, lengths that fit in `usize`.
pub open spec fn round_trips(f: Frame) -> bool
    decreases f,
{
    match f {
        Frame::Simple(s) => valid_utf8(s) && no_crlf(s),
        Frame::Bulk(s) => valid_utf8(s) && s.len() <= usize::MAX,
        Frame::Array(items) => items.len() <= usize::MAX && all_round_trip(items),
        Frame::Rdb(_) => false,
    }
}

/// Every one of `items` reads back as itself.
pub open spec fn all_round_trip(items: Seq<Frame>) -> bool
    decreases items,
{
    items.len() == 0 || (round_trips(items[0]) && all_round_trip(items.drop_first()))
}

proof fn lemma_crlf_from_finds(b: Seq<u8>, i: int, k: int)
    requires
        0 <= i <= k,
        k + 1 < b.len(),
        b[k] == CR,
        b[k + 1] == LF,
        no_crlf_between(b, i, k),
    ensures
        crlf_from(b, i) == Some(k),
    decreases k - i,
{
    if i < k {
        assert(!(b[i] == CR && b[i + 1] == LF));
        lemma_crlf_from_finds(b, i + 1, k);
    }
}

/// A header line is followed by the CRLF that ends it, and reads back as its
/// number.
proof fn lemma_header_reads_back(tag: u8, n: nat, rest: Seq<u8>)
    requires
        n <= usize::MAX,
    ensures
        ({
            let b = header(tag, n) + rest;
            let k = 1 + decimal(n).len() as int;
            &&& b[0] == tag
            &&& crlf_from(b, 1) == Some(k)
            &&& parsed_len(b.subrange(1, k)) == Some(n)
            &&& b.subrange(k + 2, b.len() as int) =~= rest
        }),
{
    lemma_decimal_reads_back(n);
    let d = decimal(n);
    let b = header(tag, n) + rest;
    let k = 1 + d.len() as int;
    assert(b.subrange(1, k) =~= d);
    assert forall|m: int| 1 <= m < k implies !(#[trigger] b[m] == CR && b[m + 1] == LF) by {
        assert(b[m] == d[m - 1]);
        assert(all_digits(d));
    }
    lemma_crlf_from_finds(b, 1, k);
}

/// Decoding undoes encoding: a frame that reads back as itself, followed by
/// any bytes at all, decodes to that frame and spans exactly its encoding.
pub proof fn lemma_decode_encode(f: Frame, rest: Seq<u8>)
    requires
        round_trips(f),
    ensures
        decode_frame(wire(f) + rest) == Ok::<(Frame, nat), ProtocolError>((f, wire(f).len())),
    decreases f,
{
    let b = wire(f) + rest;
    match f {
        Frame::Simple(s) => {
            let k = 1 + s.len() as int;
            assert forall|m: int| 1 <= m < k implies !(#[trigger] b[m] == CR && b[m + 1] == LF) by {
                assert(b[m] == s[m - 1]);
                if m + 1 < k {
                    assert(b[m + 1] == s[m]);
                } else {
                    assert(b[m + 1] == CR);
                }
            }
            lemma_crlf_from_finds(b, 1, k);
            assert(b.subrange(1, k) =~= s);
        },
        Frame::Bulk(s) => {
            let tail = s + crlf() + rest;
            lemma_header_reads_back(BULK_TAG, s.len(), tail);
            assert(b =~= header(BULK_TAG, s.len()) + tail);
            let k = 1 + decimal(s.len()).len() as int;
            let end = k + 2 + s.len() as int;
            assert(b.subrange(k + 2, end) =~= s);
            assert(b[end] == CR && b[end + 1] == LF);
        },
        Frame::Array(items) => {
            let tail = wire_all(items) + rest;
            lemma_header_reads_back(ARRAY_TAG, items.len(), tail);
            assert(b =~= header(ARRAY_TAG, items.len()) + tail);
            lemma_decode_encode_items(items, rest);
        },
        Frame::Rdb(_) => {},
    }
}

/// Decoding a run of encoded frames gives them back, in order.
pub proof fn lemma_decode_encode_items(items: Seq<Frame>, rest: Seq<u8>)
    requires
        all_round_trip(items),
    ensures
        decode_items(wire_all(items) + rest, items.len()) == Ok::<(Seq<Frame>, nat), ProtocolError>(
            (items, wire_all(items).len()),
        ),
    decreases items,
{
    if items.len() == 0 {
        assert(items =~= Seq::<Frame>::empty());
    } else {
        let f = items[0];
        let tail = items.drop_first();
        let after = wire_all(tail) + rest;
        let b = wire_all(items) + rest;
        assert(b =~= wire(f) + after);
        lemma_decode_encode(f, after);
        assert(b.subrange(wire(f).len() as int, b.len() as int) =~= after);
        lemma_decode_encode_items(tail, rest);
        assert(seq![f] + tail =~= items);
        assert(wire_all(items) == wire(f) + wire_all(tail));
        assert(tail.len() == (items.len() - 1) as nat);
        assert(decode_frame(b) == Ok::<(Frame, nat), ProtocolError>((f, wire(f).len())));
    }
}

/// Frames whose encoding is text: no snapshot blob anywhere, and every body
/// valid UTF-8.
pub open spec fn text_frame(f: Frame) -> bool
    decreases f,
{
    match f {
        Frame::Simple(s) => valid_utf8(s),
        Frame::Bulk(s) => valid_utf8(s),
        Frame::Array(items) => all_text(items),
        Frame::Rdb(_) => false,
    }
}

/// Every one of `items` is a text frame.
pub open spec fn all_text(items: Seq<Frame>) -> bool
    decreases items,
{
    items.len() == 0 || (text_frame(items[0]) && all_text(items.drop_first()))
}

proof fn lemma_header_ascii(tag: u8, n: nat)
    requires
        tag < 128,
    ensures
        all_ascii(header(tag, n)),
        valid_utf8(header(tag, n)),
{
    lemma_decimal_reads_back(n);
    let h = header(tag, n);
    assert forall|i: int| 0 <= i < h.len() implies #[trigger] h[i] < 128 by {
        if 1 <= i < 1 + decimal(n).len() {
            assert(h[i] == decimal(n)[i - 1]);
        }
    }
    lemma_ascii_valid(h);
}

proof fn lemma_crlf_valid()
    ensures
        valid_utf8(crlf()),
        valid_utf8(seq![SIMPLE_TAG]),
{
    assert(all_ascii(crlf()));
    lemma_ascii_valid(crlf());
    assert(all_ascii(seq![SIMPLE_TAG]));
    lemma_ascii_valid(seq![SIMPLE_TAG]);
}

/// The encoding of a text frame is valid UTF-8.
pub proof fn lemma_wire_valid(f: Frame)
    requires
        text_frame(f),
    ensures
        valid_utf8(wire(f)),
    decreases f,
{
    lemma_crlf_valid();
    match f {
        Frame::Simple(s) => {
            valid_utf8_concat(seq![SIMPLE_TAG], s);
            valid_utf8_concat(seq![SIMPLE_TAG] + s, crlf());
        },
        Frame::Bulk(s) => {
            lemma_header_ascii(BULK_TAG, s.len());
            valid_utf8_concat(header(BULK_TAG, s.len()), s);
            valid_utf8_concat(header(BULK_TAG, s.len()) + s, crlf());
        },
        Frame::Array(items) => {
            lemma_header_ascii(ARRAY_TAG, items.len());
            lemma_wire_all_valid(items);
            valid_utf8_concat(header(ARRAY_TAG, items.len()), wire_all(items));
        },
        Frame::Rdb(_) => {},
    }
}

/// The encodings of text frames, one after the other, are valid UTF-8.
pub proof fn lemma_wire_all_valid(items: Seq<Frame>)
    requires
        all_text(items),
    ensures
        valid_utf8(wire_all(items)),
    decreases items,
{
    if items.len() == 0 {
        assert(all_ascii(wire_all(items)));
        lemma_ascii_valid(wire_all(items));
    } else {
        lemma_wire_valid(items[0]);
        lemma_wire_all_valid(items.drop_first());
        valid_utf8_concat(wire(items[0]), wire_all(items.drop_first()));
    }
}

} // verus!
