use redis_server::client::get_empty_rdb;
use redis_server::replication::{
    full_resync_prefix, handshake_messages, normalize_address, LinkEvent, LinkState,
};
use redis_server::{
    ClientRole, Command, KeyValueStore, Payload, ProtocolError, RedisClient, RedisProtocolParser,
    RedisType, Stream,
};

fn primary() -> RedisClient {
    RedisClient::new_primary()
}

fn replica() -> RedisClient {
    RedisClient::new_replica("127.0.0.1:6379".to_string())
}

/// Feeds one read to a node the way a connection handler does, and collects
/// what it writes back and what it passes on to replicas.
fn feed(node: &mut RedisClient, bytes: &[u8], reply: bool, now: i64) -> (Vec<u8>, Vec<Vec<u8>>) {
    let requests = RedisProtocolParser::parse_requests(bytes).unwrap();
    let mut out = Vec::new();
    let mut passed_on = Vec::new();
    for request in requests {
        let (command, contents) = request.payload.retrieve_content().unwrap();
        let command = command.unwrap();
        if let Some(message) = node.fan_out(command, &contents) {
            passed_on.push(message);
        }
        let outcome = node.process_command(command, contents, reply && request.terminal, now);
        out.extend(outcome.reply);
    }
    (out, passed_on)
}

#[test]
fn set_then_get_round_trip() {
    let mut p = primary();
    let (r, _) = feed(&mut p, b"*3\r\n$3\r\nSET\r\n$3\r\nfoo\r\n$3\r\nbar\r\n", true, 0);
    assert_eq!(r, b"+OK\r\n".to_vec());
    let (r, _) = feed(&mut p, b"*2\r\n$3\r\nGET\r\n$3\r\nfoo\r\n", true, 0);
    assert_eq!(r, b"$3\r\nbar\r\n".to_vec());
}

#[test]
fn key_expires_after_px_milliseconds() {
    let mut p = primary();
    let set = b"*5\r\n$3\r\nSET\r\n$3\r\nfoo\r\n$3\r\nbar\r\n$2\r\nPX\r\n$3\r\n100\r\n";
    let (r, _) = feed(&mut p, set, true, 1_000);
    assert_eq!(r, b"+OK\r\n".to_vec());
    let get = b"*2\r\n$3\r\nGET\r\n$3\r\nfoo\r\n";
    assert_eq!(feed(&mut p, get, true, 1_000).0, b"$3\r\nbar\r\n".to_vec());
    assert_eq!(feed(&mut p, get, true, 1_099).0, b"$3\r\nbar\r\n".to_vec());
    assert_eq!(feed(&mut p, get, true, 1_150).0, b"$-1\r\n".to_vec());
}

#[test]
fn expiry_instant_itself_counts_as_expired() {
    let mut s = KeyValueStore::new();
    s.set("k", RedisType::String("v".to_string()), Some(50), 10);
    assert_eq!(s.get("k", 59), "$1\r\nv\r\n");
    assert_eq!(s.get("k", 60), "$-1\r\n");
}

#[test]
fn set_without_expiry_reads_back() {
    let mut s = KeyValueStore::new();
    assert_eq!(s.set("key", RedisType::String("hello world".to_string()), None, 5), "+OK\r\n");
    assert_eq!(s.get("key", 1_000_000), "$11\r\nhello world\r\n");
    s.set("key", RedisType::String("again".to_string()), None, 6);
    assert_eq!(s.get("key", 7), "$5\r\nagain\r\n");
    assert_eq!(s.get("missing", 7), "$-1\r\n");
}

#[test]
fn stale_expiry_still_evicts_a_key_set_again() {
    let mut s = KeyValueStore::new();
    s.set("k", RedisType::String("old".to_string()), Some(10), 0);
    s.set("k", RedisType::String("new".to_string()), None, 1);
    assert_eq!(s.get("k", 5), "$3\r\nnew\r\n");
    assert_eq!(s.get("k", 10), "$-1\r\n");
}

#[test]
fn expiry_can_be_scheduled_on_its_own() {
    let mut s = KeyValueStore::new();
    assert_eq!(s.set("a", RedisType::String("1".to_string()), None, 100), "+OK\r\n");
    assert_eq!(s.set("b", RedisType::String("2".to_string()), Some(3_600_000), 100), "+OK\r\n");
    assert_eq!(s.set_expiry("a", -1, 100), "+OK\r\n");
    assert_eq!(s.get_type("a"), "+string\r\n");
    s.clean_expiries(100);
    assert_eq!(s.get_type("a"), "+none\r\n");
    assert_eq!(s.get("a", 100), "$-1\r\n");
    assert_eq!(s.get("b", 100), "$1\r\n2\r\n");
}

#[test]
fn replication_fan_out_reaches_the_replica() {
    let mut p = primary();
    let mut r = replica();
    let (resync, _) = feed(&mut p, b"*3\r\n$5\r\nPSYNC\r\n$1\r\n?\r\n$2\r\n-1\r\n", true, 0);
    let head = b"+FULLRESYNC ";
    assert_eq!(&resync[..head.len()], head);
    let line_end = resync.windows(2).position(|w| w == b"\r\n").unwrap();
    assert_eq!(&resync[line_end - 2..line_end + 2], b" 0\r\n");
    assert_eq!(&resync[line_end + 2..], &get_empty_rdb()[..]);
    assert_eq!(&resync[line_end + 2..line_end + 7], b"$88\r\n");
    assert_eq!(resync.len() - line_end - 7, 88);
    assert_eq!(full_resync_prefix(&resync), Some(resync.len()));

    let (ok, passed_on) = feed(&mut p, b"*3\r\n$3\r\nset\r\n$1\r\nk\r\n$1\r\nv\r\n", true, 0);
    assert_eq!(ok, b"+OK\r\n".to_vec());
    assert_eq!(passed_on, vec![b"*3\r\n$3\r\nSET\r\n$1\r\nk\r\n$1\r\nv\r\n".to_vec()]);
    let (silent, _) = feed(&mut r, &passed_on[0], false, 0);
    assert!(silent.is_empty());
    let (got, _) = feed(&mut r, b"*2\r\n$3\r\nGET\r\n$1\r\nk\r\n", true, 0);
    assert_eq!(got, b"$1\r\nv\r\n".to_vec());
}

#[test]
fn psync_enrols_the_peer_only_on_a_primary() {
    let mut p = primary();
    let payload = Payload::build_bulk_string_array(vec!["PSYNC", "?", "-1"]);
    let (c, v) = payload.retrieve_content().unwrap();
    let o = p.process_command(c.unwrap(), v, false, 0);
    assert!(o.enrol_replica);
    assert!(!o.reply.is_empty());
    let mut r = replica();
    let payload = Payload::build_bulk_string_array(vec!["PSYNC", "?", "-1"]);
    let (c, v) = payload.retrieve_content().unwrap();
    let o = r.process_command(c.unwrap(), v, true, 0);
    assert!(!o.enrol_replica);
    assert_eq!(o.reply, b"-ERR command not accepted in this role\r\n".to_vec());
}

#[test]
fn replicas_hold_what_the_primary_holds_after_many_sets() {
    let mut p = primary();
    let mut replicas = vec![replica(), replica()];
    for i in 0..5 {
        let cmd = format!("*3\r\n$3\r\nSET\r\n$4\r\nkey{}\r\n$6\r\nvalue{}\r\n", i, i);
        let (_, passed_on) = feed(&mut p, cmd.as_bytes(), true, 0);
        for r in replicas.iter_mut() {
            for m in &passed_on {
                feed(r, m, false, 0);
            }
        }
    }
    for i in 0..5 {
        let get = format!("*2\r\n$3\r\nGET\r\n$4\r\nkey{}\r\n", i);
        let expected = feed(&mut p, get.as_bytes(), true, 0).0;
        assert_eq!(expected, format!("$6\r\nvalue{}\r\n", i).into_bytes());
        for r in replicas.iter_mut() {
            assert_eq!(feed(r, get.as_bytes(), true, 0).0, expected);
        }
    }
}

#[test]
fn replica_passes_nothing_on() {
    let r = replica();
    let payload = Payload::build_bulk_string_array(vec!["SET", "k", "v"]);
    let (c, v) = payload.retrieve_content().unwrap();
    assert_eq!(r.fan_out(c.unwrap(), &v), None);
}

#[test]
fn pipelined_writes_are_each_answered() {
    let two = b"*3\r\n$3\r\nSET\r\n$1\r\na\r\n$1\r\n1\r\n*3\r\n$3\r\nSET\r\n$1\r\nb\r\n$1\r\n2\r\n";
    let mut p = primary();
    let (r, passed_on) = feed(&mut p, two, true, 0);
    assert_eq!(r, b"+OK\r\n+OK\r\n".to_vec());
    assert_eq!(passed_on.len(), 2);
    let mut rep = replica();
    let (silent, _) = feed(&mut rep, two, false, 0);
    assert!(silent.is_empty());
    assert_eq!(feed(&mut rep, b"*2\r\n$3\r\nGET\r\n$1\r\na\r\n", true, 0).0, b"$1\r\n1\r\n".to_vec());
    assert_eq!(feed(&mut rep, b"*2\r\n$3\r\nGET\r\n$1\r\nb\r\n", true, 0).0, b"$1\r\n2\r\n".to_vec());
}

#[test]
fn commands_in_one_array_answer_only_the_last() {
    let flat = b"*6\r\n$3\r\nSET\r\n$1\r\na\r\n$1\r\n1\r\n$3\r\nSET\r\n$1\r\nb\r\n$1\r\n2\r\n";
    let requests = RedisProtocolParser::parse_requests(flat).unwrap();
    assert_eq!(requests.len(), 2);
    assert!(!requests[0].terminal);
    assert!(requests[1].terminal);
    let mut p = primary();
    assert_eq!(feed(&mut p, flat, true, 0).0, b"+OK\r\n".to_vec());
    let payloads = RedisProtocolParser::parse(flat).unwrap();
    assert_eq!(payloads[1], Payload::build_bulk_string_array(vec!["SET", "b", "2"]));
}

#[test]
fn info_replication_on_each_role() {
    let mut p = primary();
    let (r, _) = feed(&mut p, b"*2\r\n$4\r\nINFO\r\n$11\r\nreplication\r\n", true, 0);
    let (body, _) = Payload::decode_at(&r, 0).unwrap();
    let text = body.to_string();
    let head = "role:master\nmaster_replid:";
    assert!(text.starts_with(head));
    let rest = &text[head.len()..];
    let id: String = rest.chars().take(88).collect();
    assert_eq!(id.chars().count(), 88);
    assert!(id.starts_with("REDIS0011"));
    assert_eq!(&rest[id.len()..], "\nmaster_repl_offset:0");
    let mut r = replica();
    let (s, _) = feed(&mut r, b"*2\r\n$4\r\nINFO\r\n$11\r\nreplication\r\n", true, 0);
    assert_eq!(s, b"$10\r\nrole:slave\r\n".to_vec());
    assert_eq!(r.role.to_string(), "role:slave");
    let (e, _) = feed(&mut p, b"*2\r\n$4\r\nINFO\r\n$6\r\nserver\r\n", true, 0);
    assert_eq!(e, b"-ERR unknown section\r\n".to_vec());
}

#[test]
fn type_names_the_kind_of_value() {
    let mut p = primary();
    feed(&mut p, b"*3\r\n$3\r\nSET\r\n$1\r\ns\r\n$5\r\nhello\r\n", true, 0);
    assert_eq!(feed(&mut p, b"*2\r\n$4\r\nTYPE\r\n$1\r\ns\r\n", true, 0).0, b"+string\r\n".to_vec());
    let (id, _) = feed(&mut p, b"*5\r\n$4\r\nXADD\r\n$2\r\nst\r\n$3\r\n1-0\r\n$1\r\nf\r\n$1\r\nv\r\n", true, 0);
    assert_eq!(id, b"$3\r\n1-0\r\n".to_vec());
    assert_eq!(feed(&mut p, b"*2\r\n$4\r\nTYPE\r\n$2\r\nst\r\n", true, 0).0, b"+stream\r\n".to_vec());
    assert_eq!(feed(&mut p, b"*2\r\n$4\r\nTYPE\r\n$4\r\nnope\r\n", true, 0).0, b"+none\r\n".to_vec());
    assert_eq!(
        feed(&mut p, b"*2\r\n$3\r\nGET\r\n$2\r\nst\r\n", true, 0).0,
        b"$24\r\nInvalid call for stream.\r\n".to_vec()
    );
}

#[test]
fn any_case_dispatches_alike() {
    for bytes in [&b"*1\r\n$4\r\nping\r\n"[..], &b"*1\r\n$4\r\nPING\r\n"[..], &b"*1\r\n$4\r\npInG\r\n"[..]] {
        let mut p = primary();
        assert_eq!(feed(&mut p, bytes, true, 0).0, b"+PONG\r\n".to_vec());
    }
    let mut p = primary();
    feed(&mut p, b"*3\r\n$3\r\nsEt\r\n$1\r\nx\r\n$1\r\ny\r\n", true, 0);
    assert_eq!(feed(&mut p, b"*2\r\n$3\r\ngEt\r\n$1\r\nx\r\n", true, 0).0, b"$1\r\ny\r\n".to_vec());
}

#[test]
fn echo_answers_with_its_argument() {
    let mut p = primary();
    let (r, _) = feed(&mut p, b"*2\r\n$4\r\nECHO\r\n$3\r\nhey\r\n", true, 0);
    assert_eq!(r, b"$3\r\nhey\r\n".to_vec());
    let (r, _) = feed(&mut p, b"*3\r\n$4\r\nECHO\r\n$1\r\na\r\n$1\r\nb\r\n", true, 0);
    assert_eq!(r, b"-ERR wrong number of arguments\r\n".to_vec());
    let (r, _) = feed(&mut p, b"*1\r\n$4\r\nECHO\r\n", true, 0);
    assert_eq!(r, b"-ERR wrong number of arguments\r\n".to_vec());
}

#[test]
fn empty_read_is_incomplete() {
    assert_eq!(RedisProtocolParser::parse(b"").err(), Some(ProtocolError::Incomplete));
    assert!(matches!(
        RedisProtocolParser::parse_requests(b""),
        Err(ProtocolError::Incomplete)
    ));
}

#[test]
fn type_sweeps_expired_keys_as_get_does() {
    let mut p = primary();
    let set = b"*5\r\n$3\r\nSET\r\n$1\r\nk\r\n$1\r\nv\r\n$2\r\nPX\r\n$2\r\n10\r\n";
    feed(&mut p, set, true, 0);
    let ty = b"*2\r\n$4\r\nTYPE\r\n$1\r\nk\r\n";
    assert_eq!(feed(&mut p, ty, true, 9).0, b"+string\r\n".to_vec());
    assert_eq!(feed(&mut p, ty, true, 10).0, b"+none\r\n".to_vec());
}

#[test]
fn replconf_is_for_primaries() {
    let mut p = primary();
    let msg = b"*3\r\n$8\r\nREPLCONF\r\n$4\r\ncapa\r\n$6\r\npsync2\r\n";
    assert_eq!(feed(&mut p, msg, true, 0).0, b"+OK\r\n".to_vec());
    let mut r = replica();
    assert_eq!(
        feed(&mut r, msg, true, 0).0,
        b"-ERR command not accepted in this role\r\n".to_vec()
    );
}

#[test]
fn bad_arguments_get_error_replies() {
    let mut p = primary();
    assert_eq!(
        feed(&mut p, b"*1\r\n$3\r\nGET\r\n", true, 0).0,
        b"-ERR wrong number of arguments\r\n".to_vec()
    );
    assert_eq!(
        feed(&mut p, b"*2\r\n$3\r\nSET\r\n$1\r\nk\r\n", true, 0).0,
        b"-ERR wrong number of arguments\r\n".to_vec()
    );
    assert_eq!(
        feed(&mut p, b"*4\r\n$3\r\nSET\r\n$1\r\nk\r\n$1\r\nv\r\n$2\r\nPX\r\n", true, 0).0,
        b"-ERR wrong number of arguments\r\n".to_vec()
    );
    let (r, passed_on) = feed(&mut p, b"*5\r\n$3\r\nSET\r\n$1\r\nk\r\n$1\r\nv\r\n$2\r\nPX\r\n$3\r\nabc\r\n", true, 0);
    assert_eq!(r, b"-ERR value is not an integer or out of range\r\n".to_vec());
    assert!(passed_on.is_empty());
    assert_eq!(
        feed(&mut p, b"*5\r\n$3\r\nSET\r\n$1\r\nk\r\n$1\r\nv\r\n$2\r\nEX\r\n$2\r\n10\r\n", true, 0).0,
        b"-ERR syntax error\r\n".to_vec()
    );
    assert_eq!(feed(&mut p, b"*2\r\n$3\r\nGET\r\n$1\r\nk\r\n", true, 0).0, b"$-1\r\n".to_vec());
    assert_eq!(
        feed(&mut p, b"*2\r\n$4\r\nXADD\r\n$1\r\nk\r\n", true, 0).0,
        b"-ERR wrong number of arguments\r\n".to_vec()
    );
}

#[test]
fn px_accepts_signed_values_in_any_case() {
    let mut p = primary();
    let set = b"*5\r\n$3\r\nSET\r\n$1\r\nk\r\n$1\r\nv\r\n$2\r\npx\r\n$4\r\n+100\r\n";
    assert_eq!(feed(&mut p, set, true, 0).0, b"+OK\r\n".to_vec());
    assert_eq!(feed(&mut p, b"*2\r\n$3\r\nGET\r\n$1\r\nk\r\n", true, 99).0, b"$1\r\nv\r\n".to_vec());
    assert_eq!(feed(&mut p, b"*2\r\n$3\r\nGET\r\n$1\r\nk\r\n", true, 100).0, b"$-1\r\n".to_vec());
    let past = b"*5\r\n$3\r\nSET\r\n$1\r\nj\r\n$1\r\nw\r\n$2\r\nPx\r\n$2\r\n-5\r\n";
    assert_eq!(feed(&mut p, past, true, 0).0, b"+OK\r\n".to_vec());
    assert_eq!(feed(&mut p, b"*2\r\n$3\r\nGET\r\n$1\r\nj\r\n", true, 0).0, b"$-1\r\n".to_vec());
    let huge = b"*5\r\n$3\r\nSET\r\n$1\r\nk\r\n$1\r\nv\r\n$2\r\nPX\r\n$20\r\n99999999999999999999\r\n";
    assert_eq!(
        feed(&mut p, huge, true, 0).0,
        b"-ERR value is not an integer or out of range\r\n".to_vec()
    );
}

#[test]
fn stream_keeps_field_order_and_last_value() {
    let mut args = vec![
        Payload::BulkString("f1".to_string()),
        Payload::BulkString("v1".to_string()),
        Payload::BulkString("f2".to_string()),
        Payload::BulkString("v2".to_string()),
        Payload::BulkString("f1".to_string()),
        Payload::BulkString("v3".to_string()),
        Payload::BulkString("odd".to_string()),
    ];
    let s = Stream::new("1-0", &mut args);
    assert!(args.is_empty());
    assert_eq!(s.key, "1-0");
    assert_eq!(
        s.entries,
        vec![
            ("f1".to_string(), "v3".to_string()),
            ("f2".to_string(), "v2".to_string())
        ]
    );
    let t = RedisType::Stream(s);
    assert_eq!(t.as_inner(), "Invalid call for stream.");
    assert_eq!(t.type_str(), "+stream\r\n");
    assert_eq!(RedisType::String("x".to_string()).as_inner(), "x");
}

#[test]
fn primary_address_is_normalised() {
    assert_eq!(normalize_address("localhost 6379"), "127.0.0.1:6379");
    assert_eq!(normalize_address("10.0.0.2:7000"), "10.0.0.2:7000");
    assert_eq!(normalize_address("127.0.0.1 6379"), "127.0.0.1:6379");
}

#[test]
fn handshake_sends_four_messages_in_order() {
    let m = handshake_messages(6380);
    assert_eq!(m.len(), 4);
    assert_eq!(m[0], b"*1\r\n$4\r\nPING\r\n".to_vec());
    assert_eq!(m[1], b"*3\r\n$8\r\nREPLCONF\r\n$14\r\nlistening-port\r\n$4\r\n6380\r\n".to_vec());
    assert_eq!(m[2], b"*3\r\n$8\r\nREPLCONF\r\n$4\r\ncapa\r\n$6\r\npsync2\r\n".to_vec());
    assert_eq!(m[3], b"*3\r\n$5\r\nPSYNC\r\n$1\r\n?\r\n$2\r\n-1\r\n".to_vec());
    assert_eq!(ClientRole::init_psync(), "*3\r\n$5\r\nPSYNC\r\n$1\r\n?\r\n$2\r\n-1\r\n");
}

#[test]
fn full_resync_prefix_needs_the_whole_snapshot() {
    let mut bytes = b"+FULLRESYNC abc 0\r\n".to_vec();
    bytes.extend(get_empty_rdb());
    let whole = bytes.len();
    bytes.extend(b"*1\r\n$4\r\nPING\r\n");
    assert_eq!(full_resync_prefix(&bytes), Some(whole));
    assert_eq!(full_resync_prefix(&bytes[..whole - 1]), None);
    assert_eq!(full_resync_prefix(b"*1\r\n$4\r\nPING\r\n"), None);
}

#[test]
fn psync_line_names_id_and_offset() {
    let role = ClientRole::new_master();
    let line = role.psync();
    assert!(line.starts_with("+FULLRESYNC REDIS0011"));
    assert!(line.ends_with(" 0\r\n"));
    assert_eq!(Command::parse("psync"), Some(Command::PSync));
}

#[test]
fn link_walks_through_the_handshake() {
    let s = LinkState::new();
    let (s, m) = s.on_event(LinkEvent::Connected, 6380);
    assert_eq!(s, LinkState::Handshaking { sent: 1 });
    assert_eq!(m, Some(b"*1\r\n$4\r\nPING\r\n".to_vec()));
    let (s, m) = s.on_event(LinkEvent::Replied, 6380);
    assert_eq!(m, Some(b"*3\r\n$8\r\nREPLCONF\r\n$14\r\nlistening-port\r\n$4\r\n6380\r\n".to_vec()));
    let (s, m) = s.on_event(LinkEvent::Replied, 6380);
    assert_eq!(m, Some(b"*3\r\n$8\r\nREPLCONF\r\n$4\r\ncapa\r\n$6\r\npsync2\r\n".to_vec()));
    let (s, m) = s.on_event(LinkEvent::Replied, 6380);
    assert_eq!(s, LinkState::AwaitingSnapshot);
    assert_eq!(m, Some(b"*3\r\n$5\r\nPSYNC\r\n$1\r\n?\r\n$2\r\n-1\r\n".to_vec()));

    let mut bytes = b"+FULLRESYNC id 0\r\n".to_vec();
    bytes.extend(get_empty_rdb());
    let commands_start = bytes.len();
    bytes.extend(b"*1\r\n$4\r\nPING\r\n");
    assert_eq!(s.on_snapshot_bytes(&bytes[..30]), (LinkState::AwaitingSnapshot, None));
    assert_eq!(s.on_snapshot_bytes(&bytes), (LinkState::Streaming, Some(commands_start)));

    let (c, m) = LinkState::new().on_event(LinkEvent::Failed, 6380);
    assert_eq!(c, LinkState::Closed);
    assert_eq!(m, None);
    let (c, _) = LinkState::Streaming.on_event(LinkEvent::Replied, 6380);
    assert_eq!(c, LinkState::Closed);
}
