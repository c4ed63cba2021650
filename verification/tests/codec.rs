use respkv::decode::DecodeError;
use respkv::frame::Resp;

fn decode_all(input: &[u8]) -> (Resp, Vec<u8>) {
    Resp::new(input).expect("input should hold one frame")
}

#[test]
fn resp_test() {
    let simple = b"+PONG\r\n";
    let (result, _) = decode_all(simple);
    assert_eq!(result, Resp::SimpleString(b"PONG".to_vec()));

    let bulk = b"$5\r\nhello\r\n";
    let (result, _) = decode_all(bulk);
    assert_eq!(result, Resp::BulkString(b"hello".to_vec()));

    let array = b"*2\r\n$5\r\nhello\r\n$5\r\nworld\r\n";
    let (result, _) = decode_all(array);
    assert_eq!(
        result,
        Resp::Array(vec![
            Resp::BulkString(b"hello".to_vec()),
            Resp::BulkString(b"world".to_vec()),
        ])
    );
}

#[test]
fn encode_forms() {
    assert_eq!(
        Resp::SimpleString(b"PONG".to_vec()).encode(),
        b"+PONG\r\n".to_vec()
    );
    assert_eq!(
        Resp::BulkString(b"hello".to_vec()).encode(),
        b"$5\r\nhello\r\n".to_vec()
    );
    assert_eq!(Resp::BulkString(Vec::new()).encode(), b"$0\r\n\r\n".to_vec());
    assert_eq!(Resp::Array(Vec::new()).encode(), b"*0\r\n".to_vec());
    assert_eq!(
        Resp::Array(vec![
            Resp::BulkString(b"hello".to_vec()),
            Resp::BulkString(b"world".to_vec()),
        ])
        .encode(),
        b"*2\r\n$5\r\nhello\r\n$5\r\nworld\r\n".to_vec()
    );
    assert_eq!(respkv::frame::null_bulk(), b"$-1\r\n".to_vec());
}

#[test]
fn round_trip_returns_frame_and_empty_residual() {
    let frames = vec![
        Resp::SimpleString(b"OK".to_vec()),
        Resp::SimpleString(Vec::new()),
        Resp::BulkString(b"with\r\nbreaks".to_vec()),
        Resp::BulkString(Vec::new()),
        Resp::Array(Vec::new()),
        Resp::Array(vec![
            Resp::Array(vec![Resp::BulkString(b"nested".to_vec())]),
            Resp::SimpleString(b"deep".to_vec()),
            Resp::BulkString(b"x".to_vec()),
        ]),
    ];
    for f in frames {
        let encoded = f.encode();
        let (back, rest) = decode_all(&encoded);
        assert_eq!(back, f);
        assert!(rest.is_empty());
    }
}

#[test]
fn residual_is_preserved_verbatim() {
    let f = Resp::Array(vec![
        Resp::BulkString(b"GET".to_vec()),
        Resp::BulkString(b"foo".to_vec()),
    ]);
    let mut bytes = f.encode();
    let extra = b"+extra junk that is not parsed\r\n*9";
    bytes.extend_from_slice(extra);
    let (back, rest) = decode_all(&bytes);
    assert_eq!(back, f);
    assert_eq!(rest, extra.to_vec());
}

#[test]
fn truncated_input_is_incomplete() {
    let cases: &[&[u8]] = &[
        b"",
        b"+",
        b"+PON",
        b"+PONG\r",
        b"$",
        b"$5",
        b"$5\r",
        b"$5\r\nhel",
        b"$5\r\nhello",
        b"$5\r\nhello\r",
        b"*",
        b"*2",
        b"*2\r",
        b"*2\r\n$5\r\nhello\r\n",
        b"*2\r\n$5\r\nhello\r\n$5\r\nwor",
        b"$18446744073709551616\r\nab",
        b"*18446744073709551616\r\n",
    ];
    for c in cases {
        assert_eq!(Resp::new(c), Err(DecodeError::Incomplete), "case {:?}", c);
    }
}

#[test]
fn hopeless_input_is_malformed() {
    let cases: &[&[u8]] = &[
        b"X",
        b"-ERR\r\n",
        b"+line\nfeed\r\n",
        b"+bad\rX",
        b"$-1\r\n",
        b"$05\r\nhello\r\n",
        b"$\r\n",
        b"$x\r\n",
        b"$5x\r\n",
        b"$5\rx",
        b"$5\r\nhelloXY",
        b"$5\r\nhello\rX",
        b"*\r\n",
        b"*1\r\nX",
        b"*01\r\n+a\r\n",
        b"*1\r\n$-1\r\n",
    ];
    for c in cases {
        assert_eq!(Resp::new(c), Err(DecodeError::Malformed), "case {:?}", c);
    }
}

#[test]
fn pipelined_frames_decode_one_at_a_time() {
    let bytes = b"+one\r\n$3\r\ntwo\r\n*1\r\n+three\r\n";
    let (f1, r1) = decode_all(bytes);
    assert_eq!(f1, Resp::SimpleString(b"one".to_vec()));
    let (f2, r2) = decode_all(&r1);
    assert_eq!(f2, Resp::BulkString(b"two".to_vec()));
    let (f3, r3) = decode_all(&r2);
    assert_eq!(f3, Resp::Array(vec![Resp::SimpleString(b"three".to_vec())]));
    assert!(r3.is_empty());
}

#[test]
fn decimal_rendering_and_reading() {
    assert_eq!(respkv::dec::u64_to_dec(0), b"0".to_vec());
    assert_eq!(respkv::dec::u64_to_dec(7), b"7".to_vec());
    assert_eq!(respkv::dec::u64_to_dec(40), b"40".to_vec());
    assert_eq!(respkv::dec::u64_to_dec(6379), b"6379".to_vec());
    assert_eq!(
        respkv::dec::u64_to_dec(u64::MAX),
        b"18446744073709551615".to_vec()
    );
    assert_eq!(respkv::dec::parse_u64(b"0"), Some(0));
    assert_eq!(respkv::dec::parse_u64(b"007"), Some(7));
    assert_eq!(respkv::dec::parse_u64(b"100"), Some(100));
    assert_eq!(respkv::dec::parse_u64(b"18446744073709551615"), Some(u64::MAX));
    assert_eq!(respkv::dec::parse_u64(b"18446744073709551616"), None);
    assert_eq!(respkv::dec::parse_u64(b""), None);
    assert_eq!(respkv::dec::parse_u64(b"12x"), None);
    assert_eq!(respkv::dec::parse_u64(b"-1"), None);
}

#[test]
fn case_blind_byte_comparison() {
    assert!(respkv::ascii::ci_equal(b"PING", b"ping"));
    assert!(respkv::ascii::ci_equal(b"PiNg", b"pInG"));
    assert!(!respkv::ascii::ci_equal(b"PING", b"PONG"));
    assert!(!respkv::ascii::ci_equal(b"PING", b"PIN"));
    assert!(respkv::ascii::contains_ignore_case(b"xxPoNgxx", b"pong"));
    assert!(respkv::ascii::contains_ignore_case(b"pong", b"pong"));
    assert!(respkv::ascii::contains_ignore_case(b"pong", b""));
    assert!(!respkv::ascii::contains_ignore_case(b"pon", b"pong"));
    assert!(!respkv::ascii::contains_ignore_case(b"", b"pong"));
    assert!(respkv::ascii::bytes_eq(b"abc", b"abc"));
    assert!(!respkv::ascii::bytes_eq(b"abc", b"abd"));
    assert!(!respkv::ascii::bytes_eq(b"ABC", b"abc"));
}
