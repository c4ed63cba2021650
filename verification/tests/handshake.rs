use respkv::handshake::{next_step, reply_accepted, request_bytes, HandshakeStep};

#[test]
fn requests_are_bit_exact() {
    assert_eq!(
        request_bytes(HandshakeStep::Ping, 6380),
        b"*1\r\n$4\r\nPING\r\n".to_vec()
    );
    assert_eq!(
        request_bytes(HandshakeStep::ReplconfPort, 6380),
        b"*3\r\n$8\r\nREPLCONF\r\n$14\r\nlistening-port\r\n$4\r\n6380\r\n".to_vec()
    );
    // the port's length header follows its actual digits
    assert_eq!(
        request_bytes(HandshakeStep::ReplconfPort, 80),
        b"*3\r\n$8\r\nREPLCONF\r\n$14\r\nlistening-port\r\n$2\r\n80\r\n".to_vec()
    );
    assert_eq!(
        request_bytes(HandshakeStep::ReplconfCapa, 6380),
        b"*3\r\n$8\r\nREPLCONF\r\n$4\r\ncapa\r\n$6\r\npsync2\r\n".to_vec()
    );
    assert_eq!(
        request_bytes(HandshakeStep::Psync, 6380),
        b"*3\r\n$5\r\nPSYNC\r\n$1\r\n?\r\n$2\r\n-1\r\n".to_vec()
    );
}

#[test]
fn replies_are_checked_for_their_token() {
    assert!(reply_accepted(HandshakeStep::Ping, b"+PONG\r\n"));
    assert!(reply_accepted(HandshakeStep::Ping, b"+pOnG\r\n"));
    assert!(!reply_accepted(HandshakeStep::Ping, b"+NOPE\r\n"));
    assert!(reply_accepted(HandshakeStep::ReplconfPort, b"+OK\r\n"));
    assert!(reply_accepted(HandshakeStep::ReplconfCapa, b"+ok\r\n"));
    assert!(!reply_accepted(HandshakeStep::ReplconfCapa, b"-ERR\r\n"));
    // the PSYNC reply is read but not judged
    assert!(reply_accepted(HandshakeStep::Psync, b"anything at all"));
}

#[test]
fn steps_run_in_order_and_end() {
    assert_eq!(
        next_step(HandshakeStep::Ping),
        Some(HandshakeStep::ReplconfPort)
    );
    assert_eq!(
        next_step(HandshakeStep::ReplconfPort),
        Some(HandshakeStep::ReplconfCapa)
    );
    assert_eq!(
        next_step(HandshakeStep::ReplconfCapa),
        Some(HandshakeStep::Psync)
    );
    assert_eq!(next_step(HandshakeStep::Psync), None);
}
