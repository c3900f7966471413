//! The replica's side of replication: where the primary is, what the
//! handshake sends, and where the snapshot ends.
use crate::client::{command_effect, fan_out_message, psync_request, ClientRole};
use crate::command::{command_of, Command};
use crate::frame::{all_round_trip, decode_stream, lemma_decode_encode, round_trips};
use crate::payload::{frames_of, is_command_frame, lemma_frames_of, Value};
use crate::protocol::{group, requests_in, requests_of};
use crate::redis_type::{payload_text, ValueModel};
use crate::store::StoreModel;
use crate::decimal::{decimal, lemma_decimal_reads_back, push_decimal};
use crate::frame::{decode_frame, decode_rdb, lemma_wire_valid, wire, Frame, ProtocolError};
use crate::payload::{bulk_array, decoded_as, lemma_bulk_array_text, Payload};
use crate::text::{all_ascii, ascii_string};
use vstd::prelude::*;
use vstd::utf8::{decode_utf8, encode_utf8, encode_utf8_decode_utf8, encode_utf8_valid_utf8};

verus! {

broadcast use vstd::std_specs::vec::group_vec_axioms, vstd::seq::group_seq_axioms;

/// `s` with every occurrence of `from`, taken from the left and never
/// overlapping, replaced by `to`.
pub open spec fn replaced(s: Seq<char>, from: Seq<char>, to: Seq<char>) -> Seq<char>
    decreases s.len(),
{
    if from.len() == 0 || s.len() < from.len() {
        s
    } else if s.subrange(0, from.len() as int) == from {
        to + replaced(s.subrange(from.len() as int, s.len() as int), from, to)
    } else {
        seq![s[0]] + replaced(s.subrange(1, s.len() as int), from, to)
    }
}

/// Relies on `str::replace`: every match of `from`, found from the left
/// without overlap, replaced by `to`.
#[verifier::external_body]
fn replace_all(s: &str, from: &str, to: &str) -> (r: String)
    requires
        from@.len() > 0,
    ensures
        r@ == replaced(s@, from@, to@),
{
    s.replace(from, to)
}

/// The address of the primary as it is dialled: a space between host and
/// port becomes a colon, and `localhost` becomes `127.0.0.1`.
pub open spec fn primary_address(replicaof: Seq<char>) -> Seq<char> {
    replaced(replaced(replicaof, " "@, ":"@), "localhost"@, "127.0.0.1"@)
}

/// The address of the primary as it is dialled, from the `host port` or
/// `host:port` form it is configured in.
pub fn normalize_address(replicaof: &str) -> (r: String)
    ensures
        r@ == primary_address(replicaof@),
{
    proof {
        reveal_strlit(" ");
        reveal_strlit("localhost");
    }
    let spaced = replace_all(replicaof, " ", ":");
    replace_all(spaced.as_str(), "localhost", "127.0.0.1")
}

/// The four messages of the handshake, in order: PING, the listening port,
/// the capabilities, and the request for a full resync.
pub open spec fn handshake(port: nat) -> Seq<Seq<u8>> {
    seq![
        wire(bulk_array(seq!["PING"@])),
        wire(
            Frame::Array(
                seq![
                    Frame::Bulk(encode_utf8("REPLCONF"@)),
                    Frame::Bulk(encode_utf8("listening-port"@)),
                    Frame::Bulk(decimal(port)),
                ],
            ),
        ),
        wire(bulk_array(seq!["REPLCONF"@, "capa"@, "psync2"@])),
        wire(psync_request()),
    ]
}

/// The messages a replica listening on `listening_port` sends its primary,
/// in order.
pub fn handshake_messages(listening_port: u16) -> (r: Vec<Vec<u8>>)
    ensures
        r@.len() == 4,
        forall|i: int| 0 <= i < 4 ==> #[trigger] r@[i]@ == handshake(listening_port as nat)[i],
{
    let names: Vec<&str> = vec!["PING"];
    assert(names@ =~= seq!["PING"]);
    assert(names@.map_values(|s: &str| s@) =~= seq!["PING"@]);
    let ping = Payload::build_bulk_string_array(names).to_bytes();
    let mut digits: Vec<u8> = Vec::new();
    push_decimal(&mut digits, listening_port as usize);
    proof {
        lemma_decimal_reads_back(listening_port as nat);
        assert(digits@ =~= decimal(listening_port as nat));
        assert(all_ascii(digits@));
    }
    let port_text = ascii_string(digits);
    let port_str = port_text.as_str();
    let port = Payload::build_bulk_string_array(vec!["REPLCONF", "listening-port", port_str]).to_bytes();
    proof {
        let strs: Seq<&str> = seq!["REPLCONF", "listening-port", port_str];
        assert(strs.map_values(|s: &str| s@) =~= seq!["REPLCONF"@, "listening-port"@, port_text@]);
        let f = bulk_array(seq!["REPLCONF"@, "listening-port"@, port_text@]);
        assert(f == Frame::Array(
            seq![
                Frame::Bulk(encode_utf8("REPLCONF"@)),
                Frame::Bulk(encode_utf8("listening-port"@)),
                Frame::Bulk(decimal(listening_port as nat)),
            ],
        )) by {
            assert(f->Array_0 =~= seq![
                Frame::Bulk(encode_utf8("REPLCONF"@)),
                Frame::Bulk(encode_utf8("listening-port"@)),
                Frame::Bulk(decimal(listening_port as nat)),
            ]);
        }
    }
    let capa = Payload::build_bulk_string_array(vec!["REPLCONF", "capa", "psync2"]).to_bytes();
    proof {
        let strs: Seq<&str> = seq!["REPLCONF", "capa", "psync2"];
        assert(strs.map_values(|s: &str| s@) =~= seq!["REPLCONF"@, "capa"@, "psync2"@]);
    }
    let psync = Payload::build_bulk_string_array(vec!["PSYNC", "?", "-1"]).to_bytes();
    proof {
        let strs: Seq<&str> = seq!["PSYNC", "?", "-1"];
        assert(strs.map_values(|s: &str| s@) =~= seq!["PSYNC"@, "?"@, "-1"@]);
    }
    let ghost h = handshake(listening_port as nat);
    assert(ping@ == h[0]);
    assert(port@ == h[1]);
    assert(capa@ == h[2]);
    assert(psync@ == h[3]);
    let r = vec![ping, port, capa, psync];
    assert(r@[0]@ == h[0] && r@[1]@ == h[1] && r@[2]@ == h[2] && r@[3]@ == h[3]);
    r
}

/// The length of the primary's answer to a full-resync request at the front
/// of `b`: a simple-string line followed by the snapshot blob.
pub open spec fn full_resync_len(b: Seq<u8>) -> Option<nat> {
    match decode_frame(b) {
        Ok((Frame::Simple(_), c)) => {
            if c <= b.len() {
                match decode_rdb(b.subrange(c as int, b.len() as int)) {
                    Ok((_, d)) => Some(c + d),
                    Err(_) => None,
                }
            } else {
                None
            }
        },
        _ => None,
    }
}

/// How many bytes at the front of `buf` the primary's answer to a
/// full-resync request spans, when all of it is there; what follows it are
/// propagated commands.
pub fn full_resync_prefix(buf: &[u8]) -> (r: Option<usize>)
    ensures
        match r {
            Some(n) => full_resync_len(buf@) == Some(n as nat),
            None => full_resync_len(buf@) is None,
        },
{
    assert(buf@.subrange(0, buf@.len() as int) =~= buf@);
    let res = Payload::decode_at(buf, 0);
    match res {
        Ok((Payload::SimpleString(_), c)) => {
            let mut rest: Vec<u8> = Vec::new();
            let mut i: usize = c;
            while i < buf.len()
                invariant
                    c <= i <= buf@.len(),
                    rest@ == buf@.subrange(c as int, i as int),
                decreases buf@.len() - i,
            {
                rest.push(buf[i]);
                i = i + 1;
                assert(rest@ =~= buf@.subrange(c as int, i as int));
            }
            match Payload::from_rdb(rest.as_slice()) {
                Ok((_, d)) => {
                    assert(rest@ =~= buf@.subrange(c as int, buf@.len() as int));
                    Some(c + d)
                },
                Err(_) => None,
            }
        },
        _ => None,
    }
}

proof fn lemma_decode_stream_one(f: Frame)
    requires
        round_trips(f),
    ensures
        decode_stream(wire(f)) == Ok::<Seq<Frame>, ProtocolError>(seq![f]),
{
    let b = wire(f);
    lemma_decode_encode(f, Seq::empty());
    assert(b + Seq::<u8>::empty() =~= b);
    assert(b.len() > 0);
    assert(decode_frame(b) == Ok::<(Frame, nat), ProtocolError>((f, b.len())));
    assert(decode_stream(Seq::<u8>::empty()) == Ok::<Seq<Frame>, ProtocolError>(Seq::empty()));
    assert(b.subrange(b.len() as int, b.len() as int) =~= Seq::<u8>::empty());
    assert(seq![f] + Seq::<Frame>::empty() =~= seq![f]);
}

proof fn lemma_bulk_text(p: Payload, t: Seq<char>)
    requires
        p.frame() == Frame::Bulk(encode_utf8(t)),
    ensures
        payload_text(p) == t,
{
    encode_utf8_decode_utf8(t);
    encode_utf8_decode_utf8(p->BulkString_0@);
}

proof fn lemma_set_frame_round_trips(k: Seq<char>, v: Seq<char>)
    requires
        encode_utf8(k).len() <= usize::MAX,
        encode_utf8(v).len() <= usize::MAX,
    ensures
        round_trips(bulk_array(seq!["SET"@, k, v])),
{
    let texts = seq!["SET"@, k, v];
    let f = bulk_array(texts);
    let items = f->Array_0;
    encode_utf8_valid_utf8("SET"@);
    encode_utf8_valid_utf8(k);
    encode_utf8_valid_utf8(v);
    reveal_strlit("SET");
    assert(encode_utf8("SET"@).len() <= usize::MAX) by {
        assert("SET"@ =~= seq!['S', 'E', 'T']);
        assert(vstd::utf8::is_ascii_chars("SET"@));
        vstd::utf8::is_ascii_chars_encode_utf8("SET"@);
    }
    assert(items[0] == Frame::Bulk(encode_utf8("SET"@)));
    assert(items[1] == Frame::Bulk(encode_utf8(k)));
    assert(items[2] == Frame::Bulk(encode_utf8(v)));
    assert(all_round_trip(items.subrange(2, 3))) by {
        assert(items.subrange(2, 3).drop_first() =~= Seq::<Frame>::empty());
        assert(all_round_trip(Seq::<Frame>::empty()));
        assert(items.subrange(2, 3)[0] == items[2]);
        assert(round_trips(items[2]));
    }
    assert(items.drop_first().drop_first() =~= items.subrange(2, 3));
    assert(items.drop_first() =~= items.subrange(1, 3));
    assert(items.subrange(1, 3).drop_first() =~= items.subrange(2, 3));
    assert(items.subrange(1, 3)[0] == items[1]);
    assert(items.subrange(2, 3)[0] == items[2]);
    assert(round_trips(items[0]));
    assert(round_trips(items[1]));
    assert(round_trips(items[2]));
    assert(all_round_trip(items.subrange(1, 3)));
    assert(all_round_trip(items));
    assert(round_trips(f));
}

proof fn lemma_set_request_alone(k: Seq<char>, v: Seq<char>)
    requires
        command_of(k) is None,
        command_of(v) is None,
    ensures
        ({
            let f = bulk_array(seq!["SET"@, k, v]);
            requests_of(seq![f]) == seq![(f, true)]
        }),
{
    let texts = seq!["SET"@, k, v];
    let f = bulk_array(texts);
    let items = f->Array_0;
    encode_utf8_valid_utf8(k);
    encode_utf8_valid_utf8(v);
    assert(items[1] == Frame::Bulk(encode_utf8(k)));
    assert(items[2] == Frame::Bulk(encode_utf8(v)));
    encode_utf8_decode_utf8(k);
    encode_utf8_decode_utf8(v);
    assert(!is_command_frame(items[1]));
    assert(!is_command_frame(items[2]));
    let g1 = group(items.subrange(0, 1));
    assert(items.subrange(0, 1).drop_last() =~= Seq::<Frame>::empty());
    assert(group(Seq::<Frame>::empty()) =~= Seq::<Seq<Frame>>::empty());
    assert(items.subrange(0, 1).last() == items[0]);
    assert(items.subrange(0, 2).last() == items[1]);
    assert(items.last() == items[2]);
    assert(g1 =~= seq![seq![items[0]]]);
    assert(items.subrange(0, 2).drop_last() =~= items.subrange(0, 1));
    let g2 = group(items.subrange(0, 2));
    assert(seq![items[0]].push(items[1]) =~= seq![items[0], items[1]]);
    assert(g2 =~= seq![seq![items[0], items[1]]]);
    assert(items.drop_last() =~= items.subrange(0, 2));
    assert(seq![items[0], items[1]].push(items[2]) =~= items);
    assert(group(items) =~= seq![items]);
    assert(group(items).len() == 1 && group(items)[0] == items);
    assert(f == Frame::Array(items));
    assert(requests_in(f) == Seq::new(1, |i: int| (Frame::Array(group(items)[i]), i == 0)));
    assert(requests_in(f) =~= seq![(f, true)]);
    assert(seq![f].drop_last() =~= Seq::<Frame>::empty());
    assert(seq![f].last() == f);
    assert(requests_of(Seq::<Frame>::empty()) == Seq::<(Frame, bool)>::empty());
    assert(requests_of(seq![f]) == requests_of(Seq::<Frame>::empty()) + requests_in(f));
    assert(requests_of(seq![f]) =~= Seq::<(Frame, bool)>::empty() + requests_in(f));
}

/// Replicas keep step with their primary. When a primary with the same
/// key/value mapping as a replica applies `SET key value` (no expiry, key and
/// value naming no command), the write it passes on decodes on the replica
/// to exactly that one request, to be answered; and once the replica has
/// applied the arguments it reads from it, both map every key to the same
/// value again.
pub proof fn lemma_replica_follows_primary(
    primary: ClientRole,
    replica: ClientRole,
    p: StoreModel,
    r: StoreModel,
    x: Vec<Payload>,
    rest: Vec<Payload>,
    now_p: int,
    now_r: int,
)
    requires
        primary is Master,
        p.data == r.data,
        x@.len() == 2,
        encode_utf8(payload_text(x@[0])).len() <= usize::MAX,
        encode_utf8(payload_text(x@[1])).len() <= usize::MAX,
        command_of(payload_text(x@[0])) is None,
        command_of(payload_text(x@[1])) is None,
        frames_of(rest@) == seq![
            Frame::Bulk(encode_utf8(payload_text(x@[0]))),
            Frame::Bulk(encode_utf8(payload_text(x@[1]))),
        ],
    ensures
        ({
            let k = payload_text(x@[0]);
            let v = payload_text(x@[1]);
            let f = bulk_array(seq!["SET"@, k, v]);
            &&& fan_out_message(primary, Command::SetValue, Value::Array(x)) == Some(wire(f))
            &&& decode_stream(wire(f)) == Ok::<Seq<Frame>, ProtocolError>(seq![f])
            &&& requests_of(seq![f]) == seq![(f, true)]
            &&& command_effect(replica, r, Command::SetValue, Value::Array(rest), now_r).0.data
                == command_effect(primary, p, Command::SetValue, Value::Array(x), now_p).0.data
            &&& command_effect(primary, p, Command::SetValue, Value::Array(x), now_p).0.data == p.data.insert(
                k,
                ValueModel::Text(v),
            )
        }),
{
    let k = payload_text(x@[0]);
    let v = payload_text(x@[1]);
    lemma_set_frame_round_trips(k, v);
    lemma_decode_stream_one(bulk_array(seq!["SET"@, k, v]));
    lemma_set_request_alone(k, v);
    lemma_frames_of(rest@);
    lemma_bulk_text(rest@[0], k);
    lemma_bulk_text(rest@[1], v);
}

/// The store after a node in `role` has run SET with each of `args` in
/// turn, at `now`.
pub open spec fn after_sets(role: ClientRole, s: StoreModel, args: Seq<Vec<Payload>>, now: int) -> StoreModel
    decreases args.len(),
{
    if args.len() == 0 {
        s
    } else {
        command_effect(role, after_sets(role, s, args.drop_last(), now), Command::SetValue, Value::Array(args.last()), now).0
    }
}

/// The SET commands a primary can pass on whole: a key and a value, no
/// expiry option, text short enough to encode, and neither naming a command.
pub open spec fn plain_set(x: Vec<Payload>) -> bool {
    &&& x@.len() == 2
    &&& encode_utf8(payload_text(x@[0])).len() <= usize::MAX
    &&& encode_utf8(payload_text(x@[1])).len() <= usize::MAX
    &&& command_of(payload_text(x@[0])) is None
    &&& command_of(payload_text(x@[1])) is None
}

/// The arguments a replica reads from the write passed on for `x`.
pub open spec fn passed_on_args(x: Vec<Payload>, rest: Vec<Payload>) -> bool {
    frames_of(rest@) == seq![
        Frame::Bulk(encode_utf8(payload_text(x@[0]))),
        Frame::Bulk(encode_utf8(payload_text(x@[1]))),
    ]
}

/// The write a primary passes on for SET with arguments `x` is the
/// canonical `SET key value`, and it decodes to exactly that one request, to
/// be answered.
pub open spec fn passes_on_whole(primary: ClientRole, x: Vec<Payload>) -> bool {
    let f = bulk_array(seq!["SET"@, payload_text(x@[0]), payload_text(x@[1])]);
    &&& fan_out_message(primary, Command::SetValue, Value::Array(x)) == Some(wire(f))
    &&& decode_stream(wire(f)) == Ok::<Seq<Frame>, ProtocolError>(seq![f])
    &&& requests_of(seq![f]) == seq![(f, true)]
}

/// Replicas end with the primary's mapping. A primary and a replica start
/// with the same key/value mapping; the primary runs N plain SETs in order.
/// Each write it passes on decodes on the replica to exactly that one SET,
/// to be answered, and once the replica has run them in the same order, with
/// the arguments it reads from them, both map every key to the same value.
pub proof fn lemma_replicas_match_primary(
    primary: ClientRole,
    replica: ClientRole,
    p: StoreModel,
    r: StoreModel,
    sets: Seq<Vec<Payload>>,
    received: Seq<Vec<Payload>>,
    now_p: int,
    now_r: int,
)
    requires
        primary is Master,
        p.data == r.data,
        received.len() == sets.len(),
        forall|i: int| 0 <= i < sets.len() ==> plain_set(#[trigger] sets[i]),
        forall|i: int| 0 <= i < sets.len() ==> passed_on_args(#[trigger] sets[i], received[i]),
    ensures
        forall|i: int| 0 <= i < sets.len() ==> passes_on_whole(primary, #[trigger] sets[i]),
        after_sets(replica, r, received, now_r).data == after_sets(primary, p, sets, now_p).data,
    decreases sets.len(),
{
    if sets.len() > 0 {
        let n = sets.len() - 1;
        lemma_replicas_match_primary(primary, replica, p, r, sets.drop_last(), received.drop_last(), now_p, now_r);
        assert(plain_set(sets[n]));
        assert(passed_on_args(sets[n], received[n]));
        lemma_replica_follows_primary(
            primary,
            replica,
            after_sets(primary, p, sets.drop_last(), now_p),
            after_sets(replica, r, received.drop_last(), now_r),
            sets[n],
            received[n],
            now_p,
            now_r,
        );
        assert forall|i: int| 0 <= i < sets.len() implies passes_on_whole(primary, #[trigger] sets[i]) by {
            if i < n {
                assert(sets.drop_last()[i] == sets[i]);
            }
        }
    }
}

/// Where a replica stands with its primary.
#[derive(Clone, Copy, Debug, PartialEq, Eq, Structural)]
pub enum LinkState {
    /// Dialled; `sent` handshake messages have gone out, and the next one
    /// waits for the primary's reply to the last.
    Handshaking { sent: usize },
    /// The request for a full resync is out; its answer is being read.
    AwaitingSnapshot,
    /// The snapshot is in; what follows are propagated commands.
    Streaming,
    /// A step failed; the replica stops.
    Closed,
}

/// What happened on the link to the primary.
#[derive(Clone, Copy, Debug, PartialEq, Eq, Structural)]
pub enum LinkEvent {
    /// The connection is up.
    Connected,
    /// The primary answered the last message.
    Replied,
    /// The connection failed or was closed.
    Failed,
}

/// The state after an event, and the index of the handshake message to send
/// then, if one is to be sent.
pub open spec fn link_step(s: LinkState, e: LinkEvent) -> (LinkState, Option<nat>) {
    match (s, e) {
        (_, LinkEvent::Failed) => (LinkState::Closed, None),
        (LinkState::Handshaking { sent }, LinkEvent::Connected) => {
            if sent == 0 {
                (LinkState::Handshaking { sent: 1 }, Some(0))
            } else {
                (LinkState::Closed, None)
            }
        },
        (LinkState::Handshaking { sent }, LinkEvent::Replied) => {
            if 1 <= sent < 3 {
                (LinkState::Handshaking { sent: (sent + 1) as usize }, Some(sent as nat))
            } else if sent == 3 {
                (LinkState::AwaitingSnapshot, Some(3))
            } else {
                (LinkState::Closed, None)
            }
        },
        _ => (LinkState::Closed, None),
    }
}

impl LinkState {
    /// A replica that has not dialled its primary yet.
    pub fn new() -> (r: LinkState)
        ensures
            r == (LinkState::Handshaking { sent: 0 }),
    {
        LinkState::Handshaking { sent: 0 }
    }

    /// Moves the handshake on after `event`: the next state, and the message
    /// to send then, if any. Each message but the first waits for the reply
    /// to the one before; the request for a full resync is the last.
    pub fn on_event(self, event: LinkEvent, listening_port: u16) -> (r: (LinkState, Option<Vec<u8>>))
        ensures
            r.0 == link_step(self, event).0,
            match link_step(self, event).1 {
                Some(i) => r.1 matches Some(b) && b@ == handshake(listening_port as nat)[i as int],
                None => r.1 is None,
            },
    {
        match (self, event) {
            (_, LinkEvent::Failed) => (LinkState::Closed, None),
            (LinkState::Handshaking { sent }, LinkEvent::Connected) => {
                if sent == 0 {
                    let mut m = handshake_messages(listening_port);
                    (LinkState::Handshaking { sent: 1 }, Some(m.swap_remove(0)))
                } else {
                    (LinkState::Closed, None)
                }
            },
            (LinkState::Handshaking { sent }, LinkEvent::Replied) => {
                if 1 <= sent && sent <= 3 {
                    let mut m = handshake_messages(listening_port);
                    let message = m.swap_remove(sent);
                    if sent < 3 {
                        (LinkState::Handshaking { sent: sent + 1 }, Some(message))
                    } else {
                        (LinkState::AwaitingSnapshot, Some(message))
                    }
                } else {
                    (LinkState::Closed, None)
                }
            },
            _ => (LinkState::Closed, None),
        }
    }

    /// Reads the answer to the request for a full resync off the front of
    /// `pending`: once it is all there, the link streams and the bytes after
    /// it are commands, from the index returned.
    pub fn on_snapshot_bytes(self, pending: &[u8]) -> (r: (LinkState, Option<usize>))
        ensures
            self == LinkState::AwaitingSnapshot ==> match full_resync_len(pending@) {
                Some(n) => r == (LinkState::Streaming, Some(n as usize)),
                None => r == (LinkState::AwaitingSnapshot, None::<usize>),
            },
            self != LinkState::AwaitingSnapshot ==> r == (self, None::<usize>),
    {
        if self != LinkState::AwaitingSnapshot {
            return (self, None);
        }
        match full_resync_prefix(pending) {
            Some(n) => (LinkState::Streaming, Some(n)),
            None => (LinkState::AwaitingSnapshot, None),
        }
    }
}

} // verus!
