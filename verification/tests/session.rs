use respkv::role::Role;
use respkv::session::process_chunk;
use respkv::store::Store;

fn master() -> Role {
    Role::Master {
        master_replid: b"8371b4fb1155b71f4a04d3e1bc3e18c4a990aeeb".to_vec(),
        master_repl_offset: 0,
    }
}

#[test]
fn pipelined_commands_all_answer_in_order() {
    let mut store = Store::new();
    let role = master();
    let chunk = b"*1\r\n$4\r\nPING\r\n*3\r\n$3\r\nSET\r\n$1\r\nk\r\n$1\r\nv\r\n*2\r\n$3\r\nGET\r\n$1\r\nk\r\n";
    let (out, keep) = process_chunk(chunk, &mut store, &role, 0);
    assert_eq!(out, b"+PONG\r\n+OK\r\n$1\r\nv\r\n".to_vec());
    assert!(keep.is_empty());
}

#[test]
fn a_truncated_tail_is_kept_for_the_next_read() {
    let mut store = Store::new();
    let role = master();
    let chunk = b"*1\r\n$4\r\nPING\r\n*2\r\n$3\r\nGET";
    let (out, keep) = process_chunk(chunk, &mut store, &role, 0);
    assert_eq!(out, b"+PONG\r\n".to_vec());
    assert_eq!(keep, b"*2\r\n$3\r\nGET".to_vec());
    // the rest of the command arrives and completes it
    let mut buf = keep;
    buf.extend_from_slice(b"\r\n$1\r\nk\r\n");
    let (out, keep) = process_chunk(&buf, &mut store, &role, 0);
    assert_eq!(out, b"$-1\r\n".to_vec());
    assert!(keep.is_empty());
}

#[test]
fn a_hopeless_tail_is_dropped() {
    let mut store = Store::new();
    let role = master();
    let chunk = b"*1\r\n$4\r\nPING\r\nGARBAGE";
    let (out, keep) = process_chunk(chunk, &mut store, &role, 0);
    assert_eq!(out, b"+PONG\r\n".to_vec());
    assert!(keep.is_empty());
}

#[test]
fn unrecognized_commands_answer_nothing_but_later_ones_still_run() {
    let mut store = Store::new();
    let role = master();
    let chunk = b"*1\r\n$5\r\nHELLO\r\n*1\r\n$4\r\nPING\r\n";
    let (out, keep) = process_chunk(chunk, &mut store, &role, 0);
    assert_eq!(out, b"+PONG\r\n".to_vec());
    assert!(keep.is_empty());
}

#[test]
fn an_empty_buffer_asks_for_more() {
    let mut store = Store::new();
    let role = master();
    let (out, keep) = process_chunk(b"", &mut store, &role, 0);
    assert!(out.is_empty());
    assert!(keep.is_empty());
}
