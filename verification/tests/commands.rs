use respkv::commands::dispatch;
use respkv::frame::Resp;
use respkv::role::Role;
use respkv::store::Store;

fn master() -> Role {
    Role::Master {
        master_replid: b"8371b4fb1155b71f4a04d3e1bc3e18c4a990aeeb".to_vec(),
        master_repl_offset: 0,
    }
}

fn slave() -> Role {
    Role::Slave {
        host: b"127.0.0.1".to_vec(),
        port: 6379,
    }
}

fn send(bytes: &[u8], store: &mut Store, role: &Role, now: u64) -> Option<Vec<u8>> {
    let (frame, rest) = Resp::new(bytes).expect("request should be one whole frame");
    assert!(rest.is_empty());
    dispatch(&frame, store, role, now)
}

#[test]
fn inline_ping() {
    let mut store = Store::new();
    let reply = send(b"*1\r\n$4\r\nPING\r\n", &mut store, &master(), 0);
    assert_eq!(reply, Some(b"+PONG\r\n".to_vec()));
}

#[test]
fn bare_string_ping() {
    let mut store = Store::new();
    assert_eq!(
        send(b"+PING\r\n", &mut store, &master(), 0),
        Some(b"+PONG\r\n".to_vec())
    );
    assert_eq!(
        send(b"$4\r\nping\r\n", &mut store, &master(), 0),
        Some(b"+PONG\r\n".to_vec())
    );
    assert_eq!(send(b"+HELLO\r\n", &mut store, &master(), 0), None);
}

#[test]
fn echo() {
    let mut store = Store::new();
    let reply = send(
        b"*2\r\n$4\r\nECHO\r\n$5\r\nhello\r\n",
        &mut store,
        &master(),
        0,
    );
    assert_eq!(reply, Some(b"$5\r\nhello\r\n".to_vec()));
}

#[test]
fn set_then_get() {
    let mut store = Store::new();
    let role = master();
    let reply = send(
        b"*3\r\n$3\r\nSET\r\n$3\r\nfoo\r\n$3\r\nbar\r\n",
        &mut store,
        &role,
        0,
    );
    assert_eq!(reply, Some(b"+OK\r\n".to_vec()));
    let reply = send(b"*2\r\n$3\r\nGET\r\n$3\r\nfoo\r\n", &mut store, &role, 5);
    assert_eq!(reply, Some(b"$3\r\nbar\r\n".to_vec()));
}

#[test]
fn get_missing_key_is_null_bulk() {
    let mut store = Store::new();
    let reply = send(b"*2\r\n$3\r\nGET\r\n$3\r\nfoo\r\n", &mut store, &master(), 0);
    assert_eq!(reply, Some(b"$-1\r\n".to_vec()));
}

#[test]
fn expiry_runs_out() {
    let mut store = Store::new();
    let role = master();
    let reply = send(
        b"*5\r\n$3\r\nSET\r\n$1\r\nk\r\n$1\r\nv\r\n$2\r\nPX\r\n$3\r\n100\r\n",
        &mut store,
        &role,
        1000,
    );
    assert_eq!(reply, Some(b"+OK\r\n".to_vec()));
    // before the deadline the value is served
    let reply = send(b"*2\r\n$3\r\nGET\r\n$1\r\nk\r\n", &mut store, &role, 1050);
    assert_eq!(reply, Some(b"$1\r\nv\r\n".to_vec()));
    // past the deadline the binding is gone
    let reply = send(b"*2\r\n$3\r\nGET\r\n$1\r\nk\r\n", &mut store, &role, 1250);
    assert_eq!(reply, Some(b"$-1\r\n".to_vec()));
}

#[test]
fn overwrite_clears_expiry() {
    let mut store = Store::new();
    let role = master();
    send(
        b"*5\r\n$3\r\nSET\r\n$1\r\nk\r\n$2\r\nv1\r\n$2\r\nPX\r\n$2\r\n10\r\n",
        &mut store,
        &role,
        0,
    );
    send(
        b"*3\r\n$3\r\nSET\r\n$1\r\nk\r\n$2\r\nv2\r\n",
        &mut store,
        &role,
        1,
    );
    // arbitrarily later, the second value still answers
    let reply = send(b"*2\r\n$3\r\nGET\r\n$1\r\nk\r\n", &mut store, &role, 1_000_000);
    assert_eq!(reply, Some(b"$2\r\nv2\r\n".to_vec()));
}

#[test]
fn px_with_unreadable_count_changes_nothing() {
    let mut store = Store::new();
    let role = master();
    let reply = send(
        b"*5\r\n$3\r\nSET\r\n$1\r\nk\r\n$1\r\nv\r\n$2\r\nPX\r\n$3\r\nabc\r\n",
        &mut store,
        &role,
        0,
    );
    assert_eq!(reply, None);
    let reply = send(b"*2\r\n$3\r\nGET\r\n$1\r\nk\r\n", &mut store, &role, 0);
    assert_eq!(reply, Some(b"$-1\r\n".to_vec()));
}

#[test]
fn set_with_other_option_word_ignores_it() {
    let mut store = Store::new();
    let role = master();
    let reply = send(
        b"*4\r\n$3\r\nSET\r\n$1\r\nk\r\n$1\r\nv\r\n$2\r\nEX\r\n",
        &mut store,
        &role,
        0,
    );
    assert_eq!(reply, Some(b"+OK\r\n".to_vec()));
    let reply = send(b"*2\r\n$3\r\nGET\r\n$1\r\nk\r\n", &mut store, &role, 9_999);
    assert_eq!(reply, Some(b"$1\r\nv\r\n".to_vec()));
}

#[test]
fn info_replication_as_primary() {
    let mut store = Store::new();
    let reply = send(
        b"*2\r\n$4\r\nINFO\r\n$11\r\nreplication\r\n",
        &mut store,
        &master(),
        0,
    )
    .expect("INFO replication should answer");
    let (frame, rest) = Resp::new(&reply).expect("reply should be a frame");
    assert!(rest.is_empty());
    let body = match frame {
        Resp::BulkString(b) => b,
        other => panic!("expected a bulk string, got {:?}", other),
    };
    let text = String::from_utf8(body).expect("replication body is text");
    assert!(text.contains("role:master"));
    let id_line = text
        .lines()
        .find(|l| l.starts_with("master_replid:"))
        .expect("a master_replid line");
    assert_eq!(id_line.len(), "master_replid:".len() + 40);
    assert!(text.contains("master_repl_offset:0"));
    // the length header is computed from the actual body
    let body_text =
        "role:master\nmaster_replid:8371b4fb1155b71f4a04d3e1bc3e18c4a990aeeb\nmaster_repl_offset:0";
    let expected = format!("${}\r\n{}\r\n", body_text.len(), body_text);
    assert_eq!(reply, expected.into_bytes());
}

#[test]
fn info_replication_as_follower() {
    let mut store = Store::new();
    let reply = send(
        b"*2\r\n$4\r\nINFO\r\n$11\r\nreplication\r\n",
        &mut store,
        &slave(),
        0,
    )
    .expect("INFO replication should answer");
    assert_eq!(reply, b"$10\r\nrole:slave\r\n".to_vec());
}

#[test]
fn info_other_section_is_silent() {
    let mut store = Store::new();
    let reply = send(
        b"*2\r\n$4\r\nINFO\r\n$6\r\nmemory\r\n",
        &mut store,
        &master(),
        0,
    );
    assert_eq!(reply, None);
}

#[test]
fn replconf_is_acknowledged() {
    let mut store = Store::new();
    let reply = send(
        b"*3\r\n$8\r\nREPLCONF\r\n$14\r\nlistening-port\r\n$4\r\n6380\r\n",
        &mut store,
        &master(),
        0,
    );
    assert_eq!(reply, Some(b"+OK\r\n".to_vec()));
}

#[test]
fn psync_serves_the_snapshot() {
    let mut store = Store::new();
    let reply = send(
        b"*3\r\n$5\r\nPSYNC\r\n$1\r\n?\r\n$2\r\n-1\r\n",
        &mut store,
        &master(),
        0,
    )
    .expect("PSYNC should answer on a primary");
    let head = b"+FULLRESYNC 8371b4fb1155b71f4a04d3e1bc3e18c4a990aeeb 0\r\n$88\r\n";
    assert_eq!(&reply[..head.len()], head.as_slice());
    let payload = &reply[head.len()..];
    // the decoded snapshot, not its base64 text
    let expected: [u8; 88] = [
        82, 69, 68, 73, 83, 48, 48, 49, 49, 250, 9, 114, 101, 100, 105, 115, 45, 118, 101, 114, 5,
        55, 46, 50, 46, 48, 250, 10, 114, 101, 100, 105, 115, 45, 98, 105, 116, 115, 192, 64, 250,
        5, 99, 116, 105, 109, 101, 194, 109, 8, 188, 101, 250, 8, 117, 115, 101, 100, 45, 109, 101,
        109, 194, 176, 196, 16, 0, 250, 8, 97, 111, 102, 45, 98, 97, 115, 101, 192, 0, 255, 240,
        110, 59, 254, 192, 255, 90, 162,
    ];
    assert_eq!(payload, expected.as_slice());
    // no line break follows the payload
    assert_eq!(reply.len(), head.len() + 88);
}

#[test]
fn psync_on_a_follower_is_silent() {
    let mut store = Store::new();
    let reply = send(
        b"*3\r\n$5\r\nPSYNC\r\n$1\r\n?\r\n$2\r\n-1\r\n",
        &mut store,
        &slave(),
        0,
    );
    assert_eq!(reply, None);
}

#[test]
fn command_words_match_in_any_case() {
    let mut store = Store::new();
    let role = master();
    assert_eq!(
        send(b"*1\r\n$4\r\npInG\r\n", &mut store, &role, 0),
        Some(b"+PONG\r\n".to_vec())
    );
    assert_eq!(
        send(b"*3\r\n$3\r\nsEt\r\n$1\r\nk\r\n$1\r\nv\r\n", &mut store, &role, 0),
        Some(b"+OK\r\n".to_vec())
    );
    assert_eq!(
        send(b"*2\r\n$3\r\ngEt\r\n$1\r\nk\r\n", &mut store, &role, 0),
        Some(b"$1\r\nv\r\n".to_vec())
    );
    assert_eq!(
        send(b"*2\r\n$4\r\nEcHo\r\n$2\r\nhi\r\n", &mut store, &role, 0),
        Some(b"$2\r\nhi\r\n".to_vec())
    );
    // the PX option word too
    assert_eq!(
        send(
            b"*5\r\n$3\r\nset\r\n$1\r\nq\r\n$1\r\nw\r\n$2\r\npx\r\n$2\r\n50\r\n",
            &mut store,
            &role,
            0
        ),
        Some(b"+OK\r\n".to_vec())
    );
    assert_eq!(
        send(b"*2\r\n$3\r\nGET\r\n$1\r\nq\r\n", &mut store, &role, 100),
        Some(b"$-1\r\n".to_vec())
    );
}

#[test]
fn unknown_commands_are_silent() {
    let mut store = Store::new();
    assert_eq!(
        send(b"*1\r\n$5\r\nHELLO\r\n", &mut store, &master(), 0),
        None
    );
    assert_eq!(send(b"*0\r\n", &mut store, &master(), 0), None);
    // an array-typed command token is no command
    assert_eq!(send(b"*1\r\n*0\r\n", &mut store, &master(), 0), None);
    // missing arguments stay silent
    assert_eq!(send(b"*1\r\n$4\r\nECHO\r\n", &mut store, &master(), 0), None);
    assert_eq!(send(b"*1\r\n$3\r\nGET\r\n", &mut store, &master(), 0), None);
    assert_eq!(send(b"*1\r\n$4\r\nINFO\r\n", &mut store, &master(), 0), None);
    assert_eq!(
        send(b"*2\r\n$3\r\nSET\r\n$1\r\nk\r\n", &mut store, &master(), 0),
        None
    );
}

#[test]
fn interleaved_writers_on_disjoint_keys_do_not_interfere() {
    let mut store = Store::new();
    let role = master();
    send(b"*3\r\n$3\r\nSET\r\n$1\r\na\r\n$2\r\na1\r\n", &mut store, &role, 0);
    send(b"*3\r\n$3\r\nSET\r\n$1\r\nb\r\n$2\r\nb1\r\n", &mut store, &role, 1);
    send(b"*3\r\n$3\r\nSET\r\n$1\r\na\r\n$2\r\na2\r\n", &mut store, &role, 2);
    // each key answers its own most recent write
    assert_eq!(
        send(b"*2\r\n$3\r\nGET\r\n$1\r\nb\r\n", &mut store, &role, 3),
        Some(b"$2\r\nb1\r\n".to_vec())
    );
    assert_eq!(
        send(b"*2\r\n$3\r\nGET\r\n$1\r\na\r\n", &mut store, &role, 3),
        Some(b"$2\r\na2\r\n".to_vec())
    );
}
