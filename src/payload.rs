//! RESP payloads: the executable terms, their encoder and their decoder.
use crate::command::{command_of, Command};
use crate::decimal::{lemma_decimal_reads_back, parse_decimal, push_decimal};
use crate::frame::{
    all_text, crlf_from, decode_frame, lemma_decode_encode, round_trips, decode_items, decode_rdb, lemma_crlf_from, text_frame, wire, wire_all, Frame,
    ProtocolError, ARRAY_TAG, BULK_TAG, CR, LF, SIMPLE_TAG,
};
use crate::text::{push_all, text_from, text_of, utf8_bytes};
use crate::traits::RedisEncodable;
use vstd::prelude::*;
use vstd::utf8::{decode_utf8, encode_utf8, encode_utf8_decode_utf8, valid_utf8};

verus! {

broadcast use vstd::std_specs::vec::group_vec_axioms, vstd::seq::group_seq_axioms;

/// The line terminator of the protocol.
pub const DELIMITER: &'static str = "\r\n";

/// A RESP term.
#[derive(Debug, PartialEq)]
pub enum Payload {
    /// `+text\r\n`: a short status line.
    SimpleString(String),
    /// `$len\r\ntext\r\n`: length-prefixed, binary-safe text.
    BulkString(String),
    /// `*n\r\n` followed by `n` payloads.
    Array(Vec<Payload>),
    /// `$len\r\nbytes` with no trailing CRLF: a snapshot sent during full resync.
    RdbFile(Vec<u8>),
}

impl Payload {
    /// The frame this payload is on the wire.
    pub open spec fn frame(self) -> Frame
        decreases self,
    {
        match self {
            Payload::SimpleString(s) => Frame::Simple(encode_utf8(s@)),
            Payload::BulkString(s) => Frame::Bulk(encode_utf8(s@)),
            Payload::Array(v) => Frame::Array(frames_of(v@)),
            Payload::RdbFile(b) => Frame::Rdb(b@),
        }
    }
}

/// The frames of a sequence of payloads.
pub open spec fn frames_of(s: Seq<Payload>) -> Seq<Frame>
    decreases s,
{
    if s.len() == 0 {
        Seq::empty()
    } else {
        frames_of(s.drop_last()).push(s.last().frame())
    }
}

pub proof fn lemma_frames_of(s: Seq<Payload>)
    ensures
        frames_of(s).len() == s.len(),
        forall|i: int| 0 <= i < s.len() ==> #[trigger] frames_of(s)[i] == s[i].frame(),
    decreases s.len(),
{
    if s.len() > 0 {
        lemma_frames_of(s.drop_last());
    }
}

pub proof fn lemma_frames_of_push(s: Seq<Payload>, p: Payload)
    ensures
        frames_of(s.push(p)) == frames_of(s).push(p.frame()),
{
    assert(s.push(p).drop_last() =~= s);
}

pub proof fn lemma_wire_all_push(fs: Seq<Frame>, f: Frame)
    ensures
        wire_all(fs.push(f)) == wire_all(fs) + wire(f),
    decreases fs.len(),
{
    if fs.len() == 0 {
        assert(fs.push(f).drop_first() =~= Seq::<Frame>::empty());
        assert(fs.push(f)[0] == f);
        assert(wire_all(Seq::<Frame>::empty()) == Seq::<u8>::empty());
        assert(wire_all(fs) == Seq::<u8>::empty());
        assert(wire_all(fs.push(f)) == wire(f) + Seq::<u8>::empty());
        assert(wire_all(fs.push(f)) =~= wire_all(fs) + wire(f));
    } else {
        lemma_wire_all_push(fs.drop_first(), f);
        assert(fs.push(f).drop_first() =~= fs.drop_first().push(f));
        assert(fs.push(f)[0] == fs[0]);
        assert(wire_all(fs.push(f)) == wire(fs[0]) + wire_all(fs.drop_first().push(f)));
        assert(wire_all(fs.push(f)) =~= wire_all(fs) + wire(f));
    }
}

/// What `decode` returned matches what the model reads.
pub open spec fn decoded_as(
    r: Result<(Payload, usize), ProtocolError>,
    m: Result<(Frame, nat), ProtocolError>,
) -> bool {
    match (r, m) {
        (Ok((p, c)), Ok((f, n))) => p.frame() == f && c as nat == n,
        (Err(e), Err(e2)) => e == e2,
        _ => false,
    }
}

proof fn lemma_crlf_from_suffix(b: Seq<u8>, p: int, i: int)
    requires
        0 <= p <= b.len(),
        0 <= i,
    ensures
        crlf_from(b.subrange(p, b.len() as int), i) == (match crlf_from(b, p + i) {
            Some(k) => Some(k - p),
            None => None,
        }),
    decreases b.len() - p - i,
{
    let s = b.subrange(p, b.len() as int);
    if i + 1 < s.len() {
        assert(s[i] == b[p + i] && s[i + 1] == b[p + i + 1]);
        if !(s[i] == CR && s[i + 1] == LF) {
            lemma_crlf_from_suffix(b, p, i + 1);
        }
    }
}

/// The index of the first CRLF in `b` at `from` or later.
fn find_crlf(b: &[u8], from: usize) -> (r: Option<usize>)
    ensures
        r matches Some(k) ==> crlf_from(b@, from as int) == Some(k as int),
        r is None ==> crlf_from(b@, from as int) is None,
    decreases b@.len() - from,
{
    if from >= b.len() || from + 1 >= b.len() {
        None
    } else if b[from] == CR && b[from + 1] == LF {
        Some(from)
    } else {
        find_crlf(b, from + 1)
    }
}

impl Payload {
    /// Appends the encoding of this payload to `out`.
    pub fn encode_into(&self, out: &mut Vec<u8>)
        ensures
            final(out)@ == old(out)@ + wire(self.frame()),
        decreases self,
    {
        proof {
            lemma_decimal_reads_back(0);
        }
        match self {
            Payload::SimpleString(s) => {
                out.push(SIMPLE_TAG);
                push_all(out, utf8_bytes(s.as_str()));
                out.push(CR);
                out.push(LF);
            },
            Payload::BulkString(s) => {
                let b = utf8_bytes(s.as_str());
                out.push(BULK_TAG);
                push_decimal(out, b.len());
                out.push(CR);
                out.push(LF);
                push_all(out, b);
                out.push(CR);
                out.push(LF);
            },
            Payload::Array(items) => {
                out.push(ARRAY_TAG);
                push_decimal(out, items.len());
                out.push(CR);
                out.push(LF);
                let ghost start = out@;
                let mut i: usize = 0;
                while i < items.len()
                    invariant
                        i <= items@.len(),
                        *self == Payload::Array(*items),
                        out@ == start + wire_all(frames_of(items@.subrange(0, i as int))),
                    decreases items@.len() - i,
                {
                    proof {
                        lemma_frames_of_push(items@.subrange(0, i as int), items@[i as int]);
                        assert(items@.subrange(0, i as int).push(items@[i as int]) =~= items@.subrange(0, i + 1));
                        lemma_wire_all_push(frames_of(items@.subrange(0, i as int)), items@[i as int].frame());
                        assert(decreases_to!(*self => self->Array_0));
                        assert(decreases_to!(self->Array_0 => self->Array_0[i as int]));
                    }
                    items[i].encode_into(out);
                    i = i + 1;
                }
                assert(items@.subrange(0, i as int) =~= items@);
                proof {
                    lemma_frames_of(items@);
                }
            },
            Payload::RdbFile(b) => {
                out.push(BULK_TAG);
                push_decimal(out, b.len());
                out.push(CR);
                out.push(LF);
                push_all(out, b.as_slice());
            },
        }
        assert(final(out)@ =~= old(out)@ + wire(self.frame()));
    }

    /// The encoding of this payload.
    pub fn to_bytes(&self) -> (r: Vec<u8>)
        ensures
            r@ == wire(self.frame()),
    {
        let mut out: Vec<u8> = Vec::new();
        self.encode_into(&mut out);
        assert(out@ =~= wire(self.frame()));
        out
    }
}

/// `fs` in front of the frames of `r`, `c` added to its count.
pub open spec fn prepend(
    fs: Seq<Frame>,
    c: nat,
    r: Result<(Seq<Frame>, nat), ProtocolError>,
) -> Result<(Seq<Frame>, nat), ProtocolError> {
    match r {
        Ok((gs, d)) => Ok((fs + gs, c + d)),
        Err(e) => Err(e),
    }
}

impl Payload {
    /// Reads one payload off the front of `buf[pos..]`: the payload and the
    /// number of bytes it spans.
    pub fn decode_at(buf: &[u8], pos: usize) -> (r: Result<(Payload, usize), ProtocolError>)
        requires
            pos <= buf@.len(),
        ensures
            decoded_as(r, decode_frame(buf@.subrange(pos as int, buf@.len() as int))),
            r matches Ok((_, c)) ==> 0 < c <= buf@.len() - pos,
        decreases buf@.len() - pos,
    {
        let ghost b = buf@.subrange(pos as int, buf@.len() as int);
        if pos == buf.len() {
            return Err(ProtocolError::Incomplete);
        }
        let tag = buf[pos];
        if tag != SIMPLE_TAG && tag != BULK_TAG && tag != ARRAY_TAG {
            return Err(ProtocolError::UnknownType);
        }
        proof {
            lemma_crlf_from_suffix(buf@, pos as int, 1);
            lemma_crlf_from(buf@, pos + 1);
        }
        let k = match find_crlf(buf, pos + 1) {
            None => {
                return Err(ProtocolError::Incomplete);
            },
            Some(k) => k,
        };
        let ghost kr = k - pos;
        assert(b.subrange(1, kr) =~= buf@.subrange(pos + 1, k as int));
        if tag == SIMPLE_TAG {
            return match text_from(buf, pos + 1, k) {
                None => Err(ProtocolError::InvalidText),
                Some(s) => Ok((Payload::SimpleString(s), k + 2 - pos)),
            };
        }
        let n = match parse_decimal(buf, pos + 1, k) {
            None => {
                return Err(ProtocolError::BadLength);
            },
            Some(n) => n,
        };
        if tag == BULK_TAG {
            if buf.len() - (k + 2) < n || buf.len() - (k + 2) - n < 2 {
                return Err(ProtocolError::Incomplete);
            }
            let end = k + 2 + n;
            if buf[end] != CR || buf[end + 1] != LF {
                return Err(ProtocolError::MissingTerminator);
            }
            assert(b.subrange(kr + 2, end - pos) =~= buf@.subrange(k + 2, end as int));
            return match text_from(buf, k + 2, end) {
                None => Err(ProtocolError::InvalidText),
                Some(s) => Ok((Payload::BulkString(s), end + 2 - pos)),
            };
        }
        let ghost items_at = buf@.subrange(k + 2, buf@.len() as int);
        assert(b.subrange(kr + 2, b.len() as int) =~= items_at);
        assert(decode_frame(b) == (match decode_items(items_at, n as nat) {
            Err(e) => Err(e),
            Ok((its, c)) => Ok((Frame::Array(its), (kr + 2 + c) as nat)),
        }));
        let mut items: Vec<Payload> = Vec::new();
        let mut q: usize = k + 2;
        let mut i: usize = 0;
        proof {
            match decode_items(items_at, n as nat) {
                Ok((gs, d)) => {
                    assert(frames_of(items@) + gs =~= gs);
                },
                Err(_) => {},
            }
        }
        while i < n
            invariant
                pos < k + 2 <= q <= buf@.len(),
                i <= n,
                items_at == buf@.subrange(k + 2, buf@.len() as int),
                b == buf@.subrange(pos as int, buf@.len() as int),
                kr == k - pos,
                decode_frame(b) == (match decode_items(items_at, n as nat) {
                    Err(e) => Err(e),
                    Ok((its, c)) => Ok((Frame::Array(its), (kr + 2 + c) as nat)),
                }),
                decode_items(items_at, n as nat) == prepend(
                    frames_of(items@),
                    (q - (k + 2)) as nat,
                    decode_items(buf@.subrange(q as int, buf@.len() as int), (n - i) as nat),
                ),
            decreases n - i,
        {
            let ghost rest = buf@.subrange(q as int, buf@.len() as int);
            let res = Payload::decode_at(buf, q);
            match res {
                Err(e) => {
                    assert(decode_items(rest, (n - i) as nat) == Err::<(Seq<Frame>, nat), ProtocolError>(e));
                    return Err(e);
                },
                Ok((p, c)) => {
                    assert(c <= buf.len() - q);
                    let ghost after = buf@.subrange(q + c, buf@.len() as int);
                    assert(rest.subrange(c as int, rest.len() as int) =~= after);
                    proof {
                        lemma_frames_of_push(items@, p);
                        match decode_items(after, (n - i - 1) as nat) {
                            Ok((gs, d)) => {
                                assert(frames_of(items@) + (seq![p.frame()] + gs) =~= frames_of(items@).push(p.frame()) + gs);
                            },
                            Err(_) => {},
                        }
                    }
                    items.push(p);
                    q = q + c;
                    i = i + 1;
                },
            }
        }
        Ok((Payload::Array(items), q - pos))
    }
}

/// What reading a payload of type `tag` off the front of `b` gives: `b` must
/// start with that type byte.
pub open spec fn decode_typed(tag: u8, b: Seq<u8>) -> Result<(Frame, nat), ProtocolError> {
    if b.len() == 0 {
        Err(ProtocolError::Incomplete)
    } else if b[0] != tag {
        Err(ProtocolError::UnknownType)
    } else {
        decode_frame(b)
    }
}

impl Payload {
    /// Reads a payload whose type byte is `byte` off the front of `payload`,
    /// which starts with that byte.
    pub fn from_byte(byte: u8, payload: &str) -> (r: Result<(Payload, usize), ProtocolError>)
        ensures
            decoded_as(r, decode_typed(byte, encode_utf8(payload@))),
    {
        let b = utf8_bytes(payload);
        if b.len() == 0 {
            return Err(ProtocolError::Incomplete);
        }
        if b[0] != byte {
            return Err(ProtocolError::UnknownType);
        }
        assert(b@.subrange(0, b@.len() as int) =~= b@);
        Payload::decode_at(b, 0)
    }

    /// Reads a payload whose type character is `c` off the front of `payload`.
    pub fn from_char(c: char, payload: &str) -> (r: Result<(Payload, usize), ProtocolError>)
        ensures
            (c as u32) < 128 ==> decoded_as(r, decode_typed(c as u8, encode_utf8(payload@))),
            (c as u32) >= 128 ==> r == Err::<(Payload, usize), ProtocolError>(ProtocolError::UnknownType),
    {
        if (c as u32) < 128 {
            Payload::from_byte(c as u8, payload)
        } else {
            Err(ProtocolError::UnknownType)
        }
    }

    /// Reads a simple string, `+text\r\n`, off the front of `s`.
    pub fn from_simple_string(s: &str) -> (r: Result<(Payload, usize), ProtocolError>)
        ensures
            decoded_as(r, decode_typed(SIMPLE_TAG, encode_utf8(s@))),
    {
        Payload::from_byte(SIMPLE_TAG, s)
    }

    /// Reads a bulk string, `$len\r\ntext\r\n`, off the front of `s`.
    pub fn from_bulk_string(s: &str) -> (r: Result<(Payload, usize), ProtocolError>)
        ensures
            decoded_as(r, decode_typed(BULK_TAG, encode_utf8(s@))),
    {
        Payload::from_byte(BULK_TAG, s)
    }

    /// Reads an array, `*n\r\n` and `n` payloads, off the front of `s`.
    pub fn from_array(s: &str) -> (r: Result<(Payload, usize), ProtocolError>)
        ensures
            decoded_as(r, decode_typed(ARRAY_TAG, encode_utf8(s@))),
    {
        Payload::from_byte(ARRAY_TAG, s)
    }

    /// Reads a snapshot blob, `$len\r\nbytes` with no CRLF after the bytes,
    /// off the front of `buf`.
    pub fn from_rdb(buf: &[u8]) -> (r: Result<(Payload, usize), ProtocolError>)
        ensures
            decoded_as(r, decode_rdb(buf@)),
            r matches Ok((_, c)) ==> c <= buf@.len(),
    {
        if buf.len() == 0 {
            return Err(ProtocolError::Incomplete);
        }
        if buf[0] != BULK_TAG {
            return Err(ProtocolError::UnknownType);
        }
        proof {
            lemma_crlf_from(buf@, 1);
        }
        let k = match find_crlf(buf, 1) {
            None => {
                return Err(ProtocolError::Incomplete);
            },
            Some(k) => k,
        };
        let n = match parse_decimal(buf, 1, k) {
            None => {
                return Err(ProtocolError::BadLength);
            },
            Some(n) => n,
        };
        if buf.len() - (k + 2) < n {
            return Err(ProtocolError::Incomplete);
        }
        let end = k + 2 + n;
        let mut body: Vec<u8> = Vec::new();
        let mut i: usize = k + 2;
        while i < end
            invariant
                k + 2 <= i <= end == k + 2 + n <= buf@.len(),
                body@ == buf@.subrange(k + 2, i as int),
            decreases end - i,
        {
            body.push(buf[i]);
            i = i + 1;
            assert(body@ =~= buf@.subrange(k + 2, i as int));
        }
        Ok((Payload::RdbFile(body), end))
    }
}

impl RedisEncodable for Payload {
    open spec fn encoding(&self) -> Seq<u8> {
        wire(self.frame())
    }

    fn redis_encode(&self) -> (r: String) {
        match text_of(self.to_bytes()) {
            Some(s) => s,
            None => String::new(),
        }
    }
}

/// Several payloads, written one after the other with `", "` between them.
pub struct PayloadVec(pub Vec<Payload>);

/// The encodings of `s` joined by `", "`.
pub open spec fn joined(s: Seq<Payload>) -> Seq<u8>
    decreases s.len(),
{
    if s.len() == 0 {
        Seq::empty()
    } else if s.len() == 1 {
        wire(s[0].frame())
    } else {
        joined(s.drop_last()) + seq![44u8, 32u8] + wire(s.last().frame())
    }
}

impl PayloadVec {
    /// The encodings of the payloads joined by `", "`.
    pub fn to_bytes(&self) -> (r: Vec<u8>)
        ensures
            r@ == joined(self.0@),
    {
        let items = &self.0;
        let mut out: Vec<u8> = Vec::new();
        let mut i: usize = 0;
        while i < items.len()
            invariant
                i <= items@.len(),
                *items == self.0,
                out@ == joined(items@.subrange(0, i as int)),
            decreases items@.len() - i,
        {
            let ghost before = out@;
            if i > 0 {
                out.push(44);
                out.push(32);
            }
            items[i].encode_into(&mut out);
            proof {
                let t = items@.subrange(0, i + 1);
                assert(t.drop_last() =~= items@.subrange(0, i as int));
                if i == 0 {
                    assert(out@ =~= joined(t));
                } else {
                    assert(out@ =~= joined(t));
                }
            }
            i = i + 1;
        }
        assert(items@.subrange(0, i as int) =~= items@);
        out
    }
}

impl RedisEncodable for PayloadVec {
    open spec fn encoding(&self) -> Seq<u8> {
        joined(self.0@)
    }

    fn redis_encode(&self) -> (r: String) {
        match text_of(self.to_bytes()) {
            Some(s) => s,
            None => String::new(),
        }
    }
}

/// The content of a payload once its command, if any, has been taken off.
#[derive(Debug)]
pub enum Value {
    /// The remaining elements of an array.
    Array(Vec<Payload>),
    /// A lone bulk string that names no command.
    String(String),
    /// Nothing is left.
    Empty,
}

/// Why a payload does not carry a command and its arguments.
#[derive(Clone, Copy, Debug, PartialEq, Eq, Structural)]
pub enum ContentError {
    /// An array that is empty or does not start with a bulk string.
    NoLeadingBulkString,
    /// A simple string or a snapshot blob.
    UnsupportedPayload,
}

/// A bulk string whose text names a command.
pub open spec fn is_command_frame(f: Frame) -> bool {
    f matches Frame::Bulk(b) && valid_utf8(b) && command_of(decode_utf8(b)) is Some
}

/// An array of bulk strings holding the given texts, in order.
pub open spec fn bulk_array(texts: Seq<Seq<char>>) -> Frame {
    Frame::Array(Seq::new(texts.len(), |i: int| Frame::Bulk(encode_utf8(texts[i]))))
}

impl Payload {
    /// An array of bulk strings, one for each of `strs`, in order.
    pub fn build_bulk_string_array(strs: Vec<&str>) -> (r: Payload)
        ensures
            r.frame() == bulk_array(strs@.map_values(|s: &str| s@)),
            r is Array,
    {
        let mut arr: Vec<Payload> = Vec::new();
        let mut i: usize = 0;
        while i < strs.len()
            invariant
                i <= strs@.len(),
                arr@.len() == i,
                forall|j: int| 0 <= j < i ==> (#[trigger] arr@[j]).frame() == Frame::Bulk(encode_utf8(strs@[j]@)),
            decreases strs@.len() - i,
        {
            let s: &str = strs[i];
            arr.push(Payload::BulkString(s.to_owned()));
            i = i + 1;
        }
        proof {
            lemma_frames_of(arr@);
            assert(frames_of(arr@) =~= bulk_array(strs@.map_values(|s: &str| s@))->Array_0);
        }
        Payload::Array(arr)
    }

    /// Whether this payload is a bulk string that names a command.
    pub fn is_command(&self) -> (r: bool)
        ensures
            r == (*self matches Payload::BulkString(s) && command_of(s@) is Some),
            r == is_command_frame(self.frame()),
    {
        proof {
            if self is BulkString {
                encode_utf8_decode_utf8(self->BulkString_0@);
                vstd::utf8::encode_utf8_valid_utf8(self->BulkString_0@);
            }
        }
        match self {
            Payload::BulkString(value) => Command::parse(value.as_str()).is_some(),
            _ => false,
        }
    }

    /// The text of a simple or bulk string; empty for other payloads.
    pub fn to_string(&self) -> (r: String)
        ensures
            *self matches Payload::SimpleString(s) ==> r == s,
            *self matches Payload::BulkString(s) ==> r == s,
            (*self is Array || *self is RdbFile) ==> r@.len() == 0,
            r@ == crate::redis_type::payload_text(*self),
    {
        match self {
            Payload::SimpleString(s) => s.clone(),
            Payload::BulkString(s) => s.clone(),
            _ => {
                let r = String::new();
                assert(r@ =~= crate::redis_type::payload_text(*self));
                r
            },
        }
    }

    /// Splits a payload into the command it names, if any, and the rest.
    ///
    /// A bulk string that names a command gives that command and nothing
    /// else; one that names none is handed back as text. An array whose first
    /// element is a bulk string naming a command gives the command and the
    /// other elements; one whose first element names none is handed back
    /// whole.
    pub fn retrieve_content(self) -> (r: Result<(Option<Command>, Value), ContentError>)
        ensures
            match self {
                Payload::BulkString(s) => match command_of(s@) {
                    Some(c) => r == Ok::<(Option<Command>, Value), ContentError>((Some(c), Value::Empty)),
                    None => r == Ok::<(Option<Command>, Value), ContentError>((None, Value::String(s))),
                },
                Payload::Array(items) => {
                    if items@.len() > 0 && items@[0] is BulkString {
                        match command_of(items@[0]->BulkString_0@) {
                            Some(c) => r matches Ok((Some(c2), Value::Array(rest))) && c2 == c
                                && rest@ == items@.drop_first(),
                            None => r matches Ok((None, Value::Array(rest))) && rest@ == items@,
                        }
                    } else {
                        r == Err::<(Option<Command>, Value), ContentError>(ContentError::NoLeadingBulkString)
                    }
                },
                _ => r == Err::<(Option<Command>, Value), ContentError>(ContentError::UnsupportedPayload),
            },
    {
        match self {
            Payload::BulkString(s) => {
                let command = Command::parse(s.as_str());
                match command {
                    Some(c) => Ok((Some(c), Value::Empty)),
                    None => Ok((None, Value::String(s))),
                }
            },
            Payload::Array(items) => {
                let mut v = items;
                if v.len() == 0 {
                    return Err(ContentError::NoLeadingBulkString);
                }
                let command = match &v[0] {
                    Payload::BulkString(s) => Command::parse(s.as_str()),
                    _ => {
                        return Err(ContentError::NoLeadingBulkString);
                    },
                };
                match command {
                    Some(c) => {
                        v.remove(0);
                        assert(v@ =~= items@.drop_first());
                        Ok((Some(c), Value::Array(v)))
                    },
                    None => Ok((None, Value::Array(v))),
                }
            },
            _ => Err(ContentError::UnsupportedPayload),
        }
    }
}

/// An array of bulk strings is text.
pub proof fn lemma_bulk_array_text(texts: Seq<Seq<char>>)
    ensures
        text_frame(bulk_array(texts)),
    decreases texts.len(),
{
    let items = bulk_array(texts)->Array_0;
    if texts.len() > 0 {
        lemma_bulk_array_text(texts.drop_first());
        assert(items.drop_first() =~= bulk_array(texts.drop_first())->Array_0);
        vstd::utf8::encode_utf8_valid_utf8(texts[0]);
        assert(text_frame(items[0]));
    }
    assert(all_text(items));
}

/// A payload reads back from its own encoding: decoding the bytes that
/// `to_bytes` gives, whatever follows them, yields that payload's frame and
/// spans exactly those bytes. Snapshot blobs, and simple strings holding a
/// CRLF, are left out: the first has no CRLF after its bytes, the second would
/// end early.
pub proof fn lemma_payload_round_trip(p: Payload, rest: Seq<u8>)
    requires
        round_trips(p.frame()),
    ensures
        decode_frame(wire(p.frame()) + rest) == Ok::<(Frame, nat), ProtocolError>(
            (p.frame(), wire(p.frame()).len()),
        ),
{
    lemma_decode_encode(p.frame(), rest);
}

} // verus!
