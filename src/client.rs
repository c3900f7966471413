//! The node's role, and the dispatcher that answers commands for it.
use crate::command::{eq_ignore_case, same_ignoring_case, Command};
use crate::decimal::{decimal, lemma_decimal_reads_back, parse_i64, parsed_i64, push_decimal};
use crate::frame::{crlf, lemma_wire_valid, wire, Frame, CR, LF};
use crate::payload::{bulk_array, lemma_bulk_array_text, Payload, Value};
use crate::redis_type::{fields_from, pairs_of, payload_text, RedisType, Stream, ValueModel};
use crate::store::{expiry_at, get_reply, type_of_reply, KeyValueStore, StoreModel};
use crate::text::{all_ascii, lemma_ascii_valid, push_all, text_of, utf8_bytes};
use crate::traits::RedisEncodable;
use vstd::prelude::*;
use vstd::utf8::{encode_utf8, encode_utf8_valid_utf8, valid_utf8, valid_utf8_concat};

verus! {

broadcast use vstd::std_specs::vec::group_vec_axioms, vstd::seq::group_seq_axioms;

/// The bundled identifier, one character for each of its bytes: the
/// replication id of every primary.
pub open spec fn default_replication_id() -> Seq<char> {
    "REDIS0011\u{fa}\u{9}redis-ver\u{5}7.2.0\u{fa}\u{a}redis-bits\u{c0}@\u{fa}\u{5}ctime\u{c2}m\u{8}\u{bc}e\u{fa}\u{8}used-mem\u{c2}\u{b0}\u{c4}\u{10}\u{0}\u{fa}\u{8}aof-base\u{c0}\u{0}\u{ff}\u{f0}n;\u{fe}\u{c0}\u{ff}Z\u{a2}"@
}

/// The canonical empty snapshot sent on a full resync.
pub open spec fn empty_rdb() -> Seq<u8> {
    seq![
        82u8, 69, 68, 73, 83, 48, 48, 49, 49, 250, 9, 114, 101, 100, 105, 115, 45, 118, 101, 114, 5, 55,
        46, 50, 46, 48, 250, 10, 114, 101, 100, 105, 115, 45, 98, 105, 116, 115, 192, 64, 250, 5, 99,
        116, 105, 109, 101, 194, 109, 8, 188, 101, 250, 8, 117, 115, 101, 100, 45, 109, 101, 109, 194,
        176, 196, 16, 0, 250, 8, 97, 111, 102, 45, 98, 97, 115, 101, 192, 0, 255, 240, 110, 59, 254,
        192, 255, 90, 162,
    ]
}

/// The snapshot blob as it is sent: `$<len>\r\n` and the snapshot.
pub fn get_empty_rdb() -> (r: Vec<u8>)
    ensures
        r@ == wire(Frame::Rdb(empty_rdb())),
{
    let b: Vec<u8> = vec![
        82u8, 69, 68, 73, 83, 48, 48, 49, 49, 250, 9, 114, 101, 100, 105, 115, 45, 118, 101, 114, 5, 55,
        46, 50, 46, 48, 250, 10, 114, 101, 100, 105, 115, 45, 98, 105, 116, 115, 192, 64, 250, 5, 99,
        116, 105, 109, 101, 194, 109, 8, 188, 101, 250, 8, 117, 115, 101, 100, 45, 109, 101, 109, 194,
        176, 196, 16, 0, 250, 8, 97, 111, 102, 45, 98, 97, 115, 101, 192, 0, 255, 240, 110, 59, 254,
        192, 255, 90, 162,
    ];
    assert(b@ =~= empty_rdb());
    Payload::RdbFile(b).to_bytes()
}

/// Whether this node is a primary or a replica, with what each keeps.
pub enum ClientRole {
    /// A primary: it takes writes and passes them on to its replicas.
    Master { replication_id: String, replication_offset: usize },
    /// A replica of the primary at `master_address`.
    Slave { master_address: String, master_id: String, master_offset: i32 },
}

/// The text of a full-resync line: `FULLRESYNC <id> <offset>`.
pub open spec fn fullresync_text(id: Seq<char>, offset: nat) -> Seq<u8> {
    encode_utf8("FULLRESYNC "@) + encode_utf8(id) + encode_utf8(" "@) + decimal(offset)
}

/// The replication section of INFO for a role.
pub open spec fn info_text(role: ClientRole) -> Seq<u8> {
    match role {
        ClientRole::Master { replication_id, replication_offset } => encode_utf8(
            "role:master\nmaster_replid:"@,
        ) + encode_utf8(replication_id@) + encode_utf8("\nmaster_repl_offset:"@) + decimal(
            replication_offset as nat,
        ),
        ClientRole::Slave { .. } => encode_utf8("role:slave"@),
    }
}

/// The request a replica sends to ask for a full resync: `PSYNC ? -1`.
pub open spec fn psync_request() -> Frame {
    bulk_array(seq!["PSYNC"@, "?"@, "-1"@])
}

/// Appends the UTF-8 bytes of `s` to `out`.
pub fn push_str(out: &mut Vec<u8>, s: &str)
    ensures
        final(out)@ == old(out)@ + encode_utf8(s@),
{
    push_all(out, utf8_bytes(s));
}

proof fn lemma_decimal_valid(n: nat)
    ensures
        valid_utf8(decimal(n)),
{
    lemma_decimal_reads_back(n);
    assert(all_ascii(decimal(n)));
    lemma_ascii_valid(decimal(n));
}

impl ClientRole {
    /// A primary with the bundled replication id and offset 0.
    pub fn new_master() -> (r: ClientRole)
        ensures
            r matches ClientRole::Master { replication_id, replication_offset } && replication_id@
                == default_replication_id() && replication_offset == 0,
    {
        ClientRole::Master {
            replication_id: "REDIS0011\u{fa}\u{9}redis-ver\u{5}7.2.0\u{fa}\u{a}redis-bits\u{c0}@\u{fa}\u{5}ctime\u{c2}m\u{8}\u{bc}e\u{fa}\u{8}used-mem\u{c2}\u{b0}\u{c4}\u{10}\u{0}\u{fa}\u{8}aof-base\u{c0}\u{0}\u{ff}\u{f0}n;\u{fe}\u{c0}\u{ff}Z\u{a2}".to_owned(),
            replication_offset: 0,
        }
    }

    /// A replica of the primary at `master_address`, which has not yet heard
    /// the primary's id: id `?`, offset -1.
    pub fn new_slave(master_address: String) -> (r: ClientRole)
        ensures
            r matches ClientRole::Slave { master_address: a, master_id, master_offset } && a
                == master_address && master_id@ == "?"@ && master_offset == -1,
    {
        ClientRole::Slave { master_address, master_id: "?".to_owned(), master_offset: -1 }
    }

    /// The request a replica sends to ask for a full resync.
    pub fn init_psync() -> (r: String)
        ensures
            encode_utf8(r@) == wire(psync_request()),
    {
        let p = Payload::build_bulk_string_array(vec!["PSYNC", "?", "-1"]);
        proof {
            let v: Seq<&str> = seq!["PSYNC", "?", "-1"];
            assert(v.map_values(|s: &str| s@) =~= seq!["PSYNC"@, "?"@, "-1"@]);
            lemma_bulk_array_text(seq!["PSYNC"@, "?"@, "-1"@]);
            lemma_wire_valid(p.frame());
        }
        p.redis_encode()
    }

    /// The text of the full-resync line, for a primary.
    fn fullresync_bytes(&self) -> (r: Vec<u8>)
        requires
            self is Master,
        ensures
            r@ == fullresync_text(self->replication_id@, self->replication_offset as nat),
            valid_utf8(r@),
    {
        let mut out: Vec<u8> = Vec::new();
        match self {
            ClientRole::Master { replication_id, replication_offset } => {
                push_str(&mut out, "FULLRESYNC ");
                push_str(&mut out, replication_id.as_str());
                push_str(&mut out, " ");
                push_decimal(&mut out, *replication_offset);
                proof {
                    assert(out@ =~= fullresync_text(replication_id@, *replication_offset as nat));
                    encode_utf8_valid_utf8("FULLRESYNC "@);
                    encode_utf8_valid_utf8(replication_id@);
                    encode_utf8_valid_utf8(" "@);
                    lemma_decimal_valid(*replication_offset as nat);
                    valid_utf8_concat(encode_utf8("FULLRESYNC "@), encode_utf8(replication_id@));
                    valid_utf8_concat(encode_utf8("FULLRESYNC "@) + encode_utf8(replication_id@), encode_utf8(" "@));
                    valid_utf8_concat(
                        encode_utf8("FULLRESYNC "@) + encode_utf8(replication_id@) + encode_utf8(" "@),
                        decimal(*replication_offset as nat),
                    );
                }
            },
            ClientRole::Slave { .. } => {},
        }
        out
    }

    /// A primary's answer to a request for full resync:
    /// `+FULLRESYNC <id> <offset>\r\n`.
    pub fn psync(&self) -> (r: String)
        requires
            self is Master,
        ensures
            encode_utf8(r@) == wire(
                Frame::Simple(fullresync_text(self->replication_id@, self->replication_offset as nat)),
            ),
    {
        let line = self.fullresync_bytes();
        match text_of(line) {
            Some(t) => {
                let p = Payload::SimpleString(t);
                proof {
                    lemma_wire_valid(p.frame());
                }
                p.redis_encode()
            },
            None => String::new(),
        }
    }

    /// The replication section of INFO, as bytes.
    pub fn info_bytes(&self) -> (r: Vec<u8>)
        ensures
            r@ == info_text(*self),
            valid_utf8(r@),
    {
        let mut out: Vec<u8> = Vec::new();
        match self {
            ClientRole::Master { replication_id, replication_offset } => {
                push_str(&mut out, "role:master\nmaster_replid:");
                push_str(&mut out, replication_id.as_str());
                push_str(&mut out, "\nmaster_repl_offset:");
                push_decimal(&mut out, *replication_offset);
                proof {
                    let a = encode_utf8("role:master\nmaster_replid:"@);
                    let b = encode_utf8(replication_id@);
                    let c = encode_utf8("\nmaster_repl_offset:"@);
                    let d = decimal(*replication_offset as nat);
                    assert(out@ =~= a + b + c + d);
                    encode_utf8_valid_utf8("role:master\nmaster_replid:"@);
                    encode_utf8_valid_utf8(replication_id@);
                    encode_utf8_valid_utf8("\nmaster_repl_offset:"@);
                    lemma_decimal_valid(*replication_offset as nat);
                    valid_utf8_concat(a, b);
                    valid_utf8_concat(a + b, c);
                    valid_utf8_concat(a + b + c, d);
                }
            },
            ClientRole::Slave { .. } => {
                push_str(&mut out, "role:slave");
                proof {
                    assert(out@ =~= encode_utf8("role:slave"@));
                    encode_utf8_valid_utf8("role:slave"@);
                }
            },
        }
        out
    }

    /// The replication section of INFO:
    /// `role:master\nmaster_replid:<id>\nmaster_repl_offset:<n>` for a
    /// primary, `role:slave` for a replica.
    pub fn to_string(&self) -> (r: String)
        ensures
            encode_utf8(r@) == info_text(*self),
    {
        match text_of(self.info_bytes()) {
            Some(t) => t,
            None => String::new(),
        }
    }
}

/// Why a command was refused.
#[derive(Clone, Copy, Debug, PartialEq, Eq, Structural)]
pub enum CommandError {
    /// Too few arguments, or arguments of the wrong shape.
    WrongArguments,
    /// An expiry that is not an integer in range.
    NotAnInteger,
    /// An option other than `PX`.
    UnknownOption,
    /// An INFO section other than `replication`.
    UnknownSection,
    /// A command that this node's role does not take.
    WrongRole,
}

/// The message of an error reply.
pub open spec fn message_of(e: CommandError) -> Seq<char> {
    match e {
        CommandError::WrongArguments => "ERR wrong number of arguments"@,
        CommandError::NotAnInteger => "ERR value is not an integer or out of range"@,
        CommandError::UnknownOption => "ERR syntax error"@,
        CommandError::UnknownSection => "ERR unknown section"@,
        CommandError::WrongRole => "ERR command not accepted in this role"@,
    }
}

/// An error reply: `-<message>\r\n`.
pub open spec fn error_reply(e: CommandError) -> Seq<u8> {
    seq![45u8] + encode_utf8(message_of(e)) + crlf()
}

impl CommandError {
    /// The message of the error reply.
    pub fn message(&self) -> (r: &'static str)
        ensures
            r@ == message_of(*self),
    {
        match self {
            CommandError::WrongArguments => "ERR wrong number of arguments",
            CommandError::NotAnInteger => "ERR value is not an integer or out of range",
            CommandError::UnknownOption => "ERR syntax error",
            CommandError::UnknownSection => "ERR unknown section",
            CommandError::WrongRole => "ERR command not accepted in this role",
        }
    }

    /// The error reply.
    pub fn to_bytes(&self) -> (r: Vec<u8>)
        ensures
            r@ == error_reply(*self),
    {
        let mut out: Vec<u8> = Vec::new();
        out.push(45);
        push_str(&mut out, self.message());
        out.push(CR);
        out.push(LF);
        assert(out@ =~= error_reply(*self));
        out
    }
}

/// The reply `+OK\r\n`.
pub open spec fn ok_reply() -> Seq<u8> {
    encode_utf8("+OK\r\n"@)
}

/// The element at `i`, if there is one.
pub open spec fn arg_at(x: Seq<Payload>, i: int) -> Option<Payload> {
    if 0 <= i < x.len() {
        Some(x[i])
    } else {
        None
    }
}

/// The expiry that SET's option and its value ask for: none without an
/// option; with one, it must be `PX` (in any case) and the value an integer.
pub open spec fn expiry_arg(arg: Option<Payload>, arg_value: Option<Payload>) -> Result<Option<i64>, CommandError> {
    match arg {
        None => Ok(None),
        Some(a) => match arg_value {
            None => Err(CommandError::WrongArguments),
            Some(v) => match parsed_i64(encode_utf8(payload_text(v))) {
                None => Err(CommandError::NotAnInteger),
                Some(m) => {
                    if same_ignoring_case(payload_text(a), "px"@) {
                        Ok(Some(m as i64))
                    } else {
                        Err(CommandError::UnknownOption)
                    }
                },
            },
        },
    }
}

/// The key that GET, TYPE and INFO read: a lone string, or the first
/// argument.
pub open spec fn key_arg(c: Value) -> Option<Seq<char>> {
    match c {
        Value::String(s) => Some(s@),
        Value::Array(x) => if x@.len() > 0 {
            Some(payload_text(x@[0]))
        } else {
            None
        },
        Value::Empty => None,
    }
}

/// What a command does: the store after it, its reply, and whether it is a
/// full resync that enrols the peer as a replica.
pub open spec fn command_effect(
    role: ClientRole,
    s: StoreModel,
    cmd: Command,
    c: Value,
    now: int,
) -> (StoreModel, Seq<u8>, bool) {
    match cmd {
        Command::Ping => (s, wire(Frame::Simple(encode_utf8("PONG"@))), false),
        Command::Echo => match c {
            Value::String(t) => (s, wire(Frame::Bulk(encode_utf8(t@))), false),
            Value::Array(x) => {
                if x@.len() == 1 {
                    (s, wire(x@[0].frame()), false)
                } else {
                    (s, error_reply(CommandError::WrongArguments), false)
                }
            },
            Value::Empty => (s, error_reply(CommandError::WrongArguments), false),
        },
        Command::Get => match key_arg(c) {
            None => (s, error_reply(CommandError::WrongArguments), false),
            Some(k) => (s.swept(now), get_reply(s.swept(now).data, k), false),
        },
        Command::SetValue => match c {
            Value::Array(x) => {
                if x@.len() >= 2 {
                    match expiry_arg(arg_at(x@, 2), arg_at(x@, 3)) {
                        Ok(ms) => (
                            s.stored(payload_text(x@[0]), ValueModel::Text(payload_text(x@[1])), expiry_at(ms, now)),
                            ok_reply(),
                            false,
                        ),
                        Err(e) => (s, error_reply(e), false),
                    }
                } else {
                    (s, error_reply(CommandError::WrongArguments), false)
                }
            },
            _ => (s, error_reply(CommandError::WrongArguments), false),
        },
        Command::Type => match key_arg(c) {
            None => (s, error_reply(CommandError::WrongArguments), false),
            Some(k) => (s.swept(now), encode_utf8(type_of_reply(s.swept(now).data, k)), false),
        },
        Command::XAdd => match c {
            Value::Array(x) => {
                if x@.len() >= 2 {
                    (
                        s.stored(
                            payload_text(x@[0]),
                            ValueModel::Entry(payload_text(x@[1]), fields_from(pairs_of(x@.subrange(2, x@.len() as int)))),
                            None,
                        ),
                        wire(Frame::Bulk(encode_utf8(payload_text(x@[1])))),
                        false,
                    )
                } else {
                    (s, error_reply(CommandError::WrongArguments), false)
                }
            },
            _ => (s, error_reply(CommandError::WrongArguments), false),
        },
        Command::Info => match key_arg(c) {
            None => (s, error_reply(CommandError::WrongArguments), false),
            Some(t) => {
                if t == "replication"@ {
                    (s, wire(Frame::Bulk(info_text(role))), false)
                } else {
                    (s, error_reply(CommandError::UnknownSection), false)
                }
            },
        },
        Command::ReplConf => {
            if role is Master {
                (s, ok_reply(), false)
            } else {
                (s, error_reply(CommandError::WrongRole), false)
            }
        },
        Command::PSync => match role {
            ClientRole::Master { replication_id, replication_offset } => (
                s,
                wire(Frame::Simple(fullresync_text(replication_id@, replication_offset as nat))) + wire(
                    Frame::Rdb(empty_rdb()),
                ),
                true,
            ),
            ClientRole::Slave { .. } => (s, error_reply(CommandError::WrongRole), false),
        },
    }
}

/// The canonical write that a primary passes on to its replicas for a
/// command, if it passes one on: `SET <key> <value>` for a SET it applies.
pub open spec fn fan_out_message(role: ClientRole, cmd: Command, c: Value) -> Option<Seq<u8>> {
    match c {
        Value::Array(x) => {
            if role is Master && cmd == Command::SetValue && x@.len() >= 2 && expiry_arg(
                arg_at(x@, 2),
                arg_at(x@, 3),
            ) is Ok {
                Some(wire(bulk_array(seq!["SET"@, payload_text(x@[0]), payload_text(x@[1])])))
            } else {
                None
            }
        },
        _ => None,
    }
}

/// What the dispatcher asks its caller to do after a command.
pub struct Outcome {
    /// The bytes to write back to the peer; empty when nothing is written.
    pub reply: Vec<u8>,
    /// Whether the peer has asked for a full resync and is now a replica to
    /// pass writes on to.
    pub enrol_replica: bool,
}

/// A node: its store and its role.
pub struct RedisClient {
    pub store: KeyValueStore,
    pub role: ClientRole,
}

/// The text of a simple or bulk string, borrowed; empty for other payloads.
fn text_str(p: &Payload) -> (r: &str)
    ensures
        r@ == payload_text(*p),
{
    match p {
        Payload::SimpleString(s) => s.as_str(),
        Payload::BulkString(s) => s.as_str(),
        _ => {
            proof {
                reveal_strlit("");
            }
            ""
        },
    }
}

/// Checks SET's option and its value.
fn expiry_from(arg: Option<&Payload>, arg_value: Option<&Payload>) -> (r: Result<Option<i64>, CommandError>)
    ensures
        r == expiry_arg(
            match arg {
                Some(a) => Some(*a),
                None => None,
            },
            match arg_value {
                Some(v) => Some(*v),
                None => None,
            },
        ),
{
    match arg {
        None => Ok(None),
        Some(a) => match arg_value {
            None => Err(CommandError::WrongArguments),
            Some(v) => match parse_i64(utf8_bytes(text_str(v))) {
                None => Err(CommandError::NotAnInteger),
                Some(m) => {
                    proof {
                        reveal_strlit("px");
                    }
                    if eq_ignore_case(text_str(a), "px") {
                        Ok(Some(m))
                    } else {
                        Err(CommandError::UnknownOption)
                    }
                },
            },
        },
    }
}

/// The element at `i` of `x`, borrowed.
fn arg_ref(x: &Vec<Payload>, i: usize) -> (r: Option<&Payload>)
    ensures
        match r {
            Some(p) => arg_at(x@, i as int) == Some(*p),
            None => arg_at(x@, i as int) is None,
        },
{
    if i < x.len() {
        Some(&x[i])
    } else {
        None
    }
}

/// The key that GET, TYPE and INFO read.
fn key_of(c: Value) -> (r: Option<String>)
    ensures
        match r {
            Some(k) => key_arg(c) == Some(k@),
            None => key_arg(c) is None,
        },
{
    match c {
        Value::String(s) => Some(s),
        Value::Array(x) => {
            if x.len() > 0 {
                Some(x[0].to_string())
            } else {
                None
            }
        },
        Value::Empty => None,
    }
}

impl RedisClient {
    /// A primary with an empty store.
    pub fn new_primary() -> (r: RedisClient)
        ensures
            r.store.wf(),
            r.store.model() == StoreModel::empty(),
            r.role matches ClientRole::Master { replication_id, replication_offset } && replication_id@
                == default_replication_id() && replication_offset == 0,
    {
        RedisClient { store: KeyValueStore::new(), role: ClientRole::new_master() }
    }

    /// A replica of the primary at `master_address`, with an empty store.
    pub fn new_replica(master_address: String) -> (r: RedisClient)
        ensures
            r.store.wf(),
            r.store.model() == StoreModel::empty(),
            r.role matches ClientRole::Slave { master_address: a, master_id, master_offset } && a
                == master_address && master_id@ == "?"@ && master_offset == -1,
    {
        RedisClient { store: KeyValueStore::new(), role: ClientRole::new_slave(master_address) }
    }

    /// The canonical write to pass on to the replicas for a command, if any:
    /// on a primary, `SET <key> <value>` for each SET that it applies.
    pub fn fan_out(&self, command: Command, contents: &Value) -> (r: Option<Vec<u8>>)
        ensures
            match r {
                Some(b) => fan_out_message(self.role, command, *contents) == Some(b@),
                None => fan_out_message(self.role, command, *contents) is None,
            },
    {
        let is_primary = match &self.role {
            ClientRole::Master { .. } => true,
            ClientRole::Slave { .. } => false,
        };
        if !is_primary || command != Command::SetValue {
            return None;
        }
        match contents {
            Value::Array(x) => {
                if x.len() < 2 {
                    return None;
                }
                match expiry_from(arg_ref(x, 2), arg_ref(x, 3)) {
                    Err(_) => None,
                    Ok(_) => {
                        let a0 = text_str(&x[0]);
                        let a1 = text_str(&x[1]);
                        let p = Payload::build_bulk_string_array(vec!["SET", a0, a1]);
                        let b = p.to_bytes();
                        proof {
                            let texts = seq!["SET"@, payload_text(x@[0]), payload_text(x@[1])];
                            let strs: Seq<&str> = seq!["SET", a0, a1];
                            assert(strs.map_values(|s: &str| s@) =~= texts);
                        }
                        Some(b)
                    },
                }
            },
            _ => None,
        }
    }

    /// Stores `value` under `key`, to expire as `arg` and `arg_value` ask:
    /// `PX <milliseconds>` counted from `now`, or no expiry without them.
    pub fn process_set(
        &mut self,
        key: String,
        value: RedisType,
        arg: Option<Payload>,
        arg_value: Option<Payload>,
        now: i64,
    ) -> (r: Result<String, CommandError>)
        requires
            old(self).store.wf(),
        ensures
            final(self).store.wf(),
            final(self).role == old(self).role,
            match expiry_arg(arg, arg_value) {
                Ok(ms) => r matches Ok(t) && t@ == "+OK\r\n"@ && final(self).store.model()
                    == old(self).store.model().stored(key@, value.model(), expiry_at(ms, now as int)),
                Err(e) => r == Err::<String, CommandError>(e) && final(self).store.model() == old(
                    self,
                ).store.model(),
            },
    {
        let a = match &arg {
            Some(p) => Some(p),
            None => None,
        };
        let v = match &arg_value {
            Some(p) => Some(p),
            None => None,
        };
        match expiry_from(a, v) {
            Err(e) => Err(e),
            Ok(ms) => Ok(self.store.set(key.as_str(), value, ms, now)),
        }
    }
}

impl RedisClient {
    fn dispatch_set(&mut self, contents: Value, now: i64) -> (r: Vec<u8>)
        requires
            old(self).store.wf(),
        ensures
            final(self).store.wf(),
            final(self).role == old(self).role,
            ({
                let (s, bytes, _) = command_effect(old(self).role, old(self).store.model(), Command::SetValue, contents, now as int);
                final(self).store.model() == s && r@ == bytes
            }),
    {
        match contents {
            Value::Array(x) => {
                if x.len() < 2 {
                    return CommandError::WrongArguments.to_bytes();
                }
                let ghost all = x@;
                let mut v = x;
                let k = v.remove(0);
                let val = v.remove(0);
                assert(v@ =~= all.subrange(2, all.len() as int));
                let arg = if v.len() > 0 {
                    Some(v.remove(0))
                } else {
                    None
                };
                let arg_value = if v.len() > 0 {
                    Some(v.remove(0))
                } else {
                    None
                };
                assert(arg == arg_at(all, 2));
                assert(arg_value == arg_at(all, 3));
                match self.process_set(k.to_string(), RedisType::String(val.to_string()), arg, arg_value, now) {
                    Ok(t) => {
                        let mut out: Vec<u8> = Vec::new();
                        push_str(&mut out, t.as_str());
                        assert(out@ =~= ok_reply());
                        out
                    },
                    Err(e) => e.to_bytes(),
                }
            },
            _ => CommandError::WrongArguments.to_bytes(),
        }
    }

    fn dispatch_xadd(&mut self, contents: Value, now: i64) -> (r: Vec<u8>)
        requires
            old(self).store.wf(),
        ensures
            final(self).store.wf(),
            final(self).role == old(self).role,
            ({
                let (s, bytes, _) = command_effect(old(self).role, old(self).store.model(), Command::XAdd, contents, now as int);
                final(self).store.model() == s && r@ == bytes
            }),
    {
        match contents {
            Value::Array(x) => {
                if x.len() < 2 {
                    return CommandError::WrongArguments.to_bytes();
                }
                let ghost all = x@;
                let mut v = x;
                let k = v.remove(0);
                let id = v.remove(0);
                assert(v@ =~= all.subrange(2, all.len() as int));
                let id_text = id.to_string();
                let entry = Stream::new(id_text.as_str(), &mut v);
                self.store.set(k.to_string().as_str(), RedisType::Stream(entry), None, now);
                Payload::BulkString(id_text).to_bytes()
            },
            _ => CommandError::WrongArguments.to_bytes(),
        }
    }

    fn dispatch_psync(&self) -> (r: Vec<u8>)
        ensures
            ({
                let (_, bytes, _) = command_effect(self.role, StoreModel::empty(), Command::PSync, Value::Empty, 0);
                r@ == bytes
            }),
    {
        match &self.role {
            ClientRole::Master { .. } => {
                let mut out: Vec<u8> = Vec::new();
                out.push(43);
                let line = self.role.fullresync_bytes();
                push_all(&mut out, line.as_slice());
                out.push(CR);
                out.push(LF);
                let rdb = get_empty_rdb();
                push_all(&mut out, rdb.as_slice());
                out
            },
            ClientRole::Slave { .. } => CommandError::WrongRole.to_bytes(),
        }
    }

    /// Carries out one command against the store and the role, and says
    /// what to write back and whether the peer is now a replica.
    ///
    /// Nothing is written back when `reply` is false, but for the answer to
    /// a full-resync request, which always is.
    pub fn process_command(&mut self, command: Command, contents: Value, reply: bool, now: i64) -> (o: Outcome)
        requires
            old(self).store.wf(),
        ensures
            final(self).store.wf(),
            final(self).role == old(self).role,
            ({
                let (s, bytes, resync) = command_effect(old(self).role, old(self).store.model(), command, contents, now as int);
                &&& final(self).store.model() == s
                &&& o.enrol_replica == resync
                &&& o.reply@ == (if reply || resync {
                    bytes
                } else {
                    Seq::empty()
                })
            }),
    {
        let is_primary = match &self.role {
            ClientRole::Master { .. } => true,
            ClientRole::Slave { .. } => false,
        };
        let bytes: Vec<u8> = match command {
            Command::Ping => Payload::SimpleString("PONG".to_owned()).to_bytes(),
            Command::Echo => match contents {
                Value::String(t) => Payload::BulkString(t).to_bytes(),
                Value::Array(x) => {
                    if x.len() == 1 {
                        x[0].to_bytes()
                    } else {
                        CommandError::WrongArguments.to_bytes()
                    }
                },
                Value::Empty => CommandError::WrongArguments.to_bytes(),
            },
            Command::Get => match key_of(contents) {
                None => CommandError::WrongArguments.to_bytes(),
                Some(k) => {
                    let r = self.store.get(k.as_str(), now);
                    let mut out: Vec<u8> = Vec::new();
                    push_str(&mut out, r.as_str());
                    assert(out@ =~= encode_utf8(r@));
                    out
                },
            },
            Command::SetValue => self.dispatch_set(contents, now),
            Command::Type => match key_of(contents) {
                None => CommandError::WrongArguments.to_bytes(),
                Some(k) => {
                    self.store.clean_expiries(now);
                    let r = self.store.get_type(k.as_str());
                    let mut out: Vec<u8> = Vec::new();
                    push_str(&mut out, r.as_str());
                    assert(out@ =~= encode_utf8(r@));
                    out
                },
            },
            Command::XAdd => self.dispatch_xadd(contents, now),
            Command::Info => match key_of(contents) {
                None => CommandError::WrongArguments.to_bytes(),
                Some(t) => {
                    if t == "replication".to_owned() {
                        let body = self.role.info_bytes();
                        match text_of(body) {
                            Some(text) => Payload::BulkString(text).to_bytes(),
                            None => Vec::new(),
                        }
                    } else {
                        CommandError::UnknownSection.to_bytes()
                    }
                },
            },
            Command::ReplConf => {
                if is_primary {
                    let mut out: Vec<u8> = Vec::new();
                    push_str(&mut out, "+OK\r\n");
                    assert(out@ =~= ok_reply());
                    out
                } else {
                    CommandError::WrongRole.to_bytes()
                }
            },
            Command::PSync => self.dispatch_psync(),
        };
        let resync = is_primary && command == Command::PSync;
        let written = if reply || resync {
            bytes
        } else {
            Vec::new()
        };
        Outcome { reply: written, enrol_replica: resync }
    }
}

/// On a replica, `INFO replication` answers with the bulk string whose body
/// is exactly `role:slave`: `$10\r\nrole:slave\r\n`.
pub proof fn lemma_info_on_replica(role: ClientRole, s: StoreModel, x: Vec<Payload>, now: int)
    requires
        role is Slave,
        x@.len() > 0,
        payload_text(x@[0]) == "replication"@,
    ensures
        command_effect(role, s, Command::Info, Value::Array(x), now) == (
            s,
            seq![36u8, 49, 48, 13, 10, 114, 111, 108, 101, 58, 115, 108, 97, 118, 101, 13, 10],
            false,
        ),
{
    reveal_strlit("role:slave");
    let t = "role:slave"@;
    assert(t =~= seq!['r', 'o', 'l', 'e', ':', 's', 'l', 'a', 'v', 'e']);
    assert(vstd::utf8::is_ascii_chars(t));
    vstd::utf8::is_ascii_chars_encode_utf8(t);
    let b = encode_utf8(t);
    assert(b =~= seq![114u8, 111, 108, 101, 58, 115, 108, 97, 118, 101]);
    assert(decimal(10) =~= seq![49u8, 48]) by {
        assert(decimal(1) == seq![49u8]);
        assert(decimal(0) == seq![48u8]);
    }
    assert(wire(Frame::Bulk(b)) =~= seq![36u8, 49, 48, 13, 10, 114, 111, 108, 101, 58, 115, 108, 97, 118, 101, 13, 10]);
}

} // verus!
