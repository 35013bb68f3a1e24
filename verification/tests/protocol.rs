use kvserver::codec::encode_req;
use kvserver::codec::parse_req;
use kvserver::conn::Conn;
use kvserver::conn::State;
use kvserver::hashtable::HMap;
use kvserver::client::decode_response;
use kvserver::client::Token;
use kvserver::K_MAX_MSG;

fn args_of(words: &[&[u8]]) -> Vec<Vec<u8>> {
    words.iter().map(|w| w.to_vec()).collect()
}

/// Encode a request frame (length prefix included) for the given words.
fn frame(words: &[&[u8]]) -> Vec<u8> {
    encode_req(&args_of(words)).expect("request must fit in a frame")
}

/// Feed one request frame and pull the whole staged reply frame back out.
fn exchange(conn: &mut Conn, map: &mut HMap, words: &[&[u8]]) -> Vec<u8> {
    let f = frame(words);
    conn.feed(&f);
    assert!(conn.try_one_request(map));
    assert_eq!(conn.state, State::Writing);
    let reply = conn.pending();
    let n = reply.len();
    conn.on_write(n);
    assert_eq!(conn.state, State::Reading);
    reply
}

#[test]
fn set_then_get() {
    let mut map = HMap::new();
    let mut conn = Conn::new();
    let r1 = exchange(&mut conn, &mut map, &[b"SET", b"foo", b"bar"]);
    assert_eq!(r1, vec![0x01, 0x00, 0x00, 0x00, 0x00]);
    // STR "bar" serializes to 8 payload bytes: tag, 4-byte length, 3 data.
    let r2 = exchange(&mut conn, &mut map, &[b"GET", b"foo"]);
    assert_eq!(
        r2,
        vec![0x08, 0x00, 0x00, 0x00, 0x02, 0x03, 0x00, 0x00, 0x00, 0x62, 0x61, 0x72]
    );
}

#[test]
fn get_missing() {
    let mut map = HMap::new();
    let mut conn = Conn::new();
    let r = exchange(&mut conn, &mut map, &[b"GET", b"x"]);
    assert_eq!(r, vec![0x01, 0x00, 0x00, 0x00, 0x00]);
}

#[test]
fn del_semantics() {
    let mut map = HMap::new();
    let mut conn = Conn::new();
    let r1 = exchange(&mut conn, &mut map, &[b"SET", b"k", b"v"]);
    assert_eq!(r1, vec![0x01, 0x00, 0x00, 0x00, 0x00]);
    let r2 = exchange(&mut conn, &mut map, &[b"DEL", b"k"]);
    assert_eq!(
        r2,
        vec![0x09, 0x00, 0x00, 0x00, 0x03, 0x01, 0x00, 0x00, 0x00, 0x00, 0x00, 0x00, 0x00]
    );
    let r3 = exchange(&mut conn, &mut map, &[b"DEL", b"k"]);
    assert_eq!(
        r3,
        vec![0x09, 0x00, 0x00, 0x00, 0x03, 0x00, 0x00, 0x00, 0x00, 0x00, 0x00, 0x00, 0x00]
    );
}

#[test]
fn unknown_command() {
    let mut map = HMap::new();
    let mut conn = Conn::new();
    let r = exchange(&mut conn, &mut map, &[b"FOO"]);
    let mut expected: Vec<u8> = Vec::new();
    let msg = b"Unknown CMD";
    expected.extend_from_slice(&(9u32 + msg.len() as u32).to_le_bytes());
    expected.push(0x01);
    expected.extend_from_slice(&1u32.to_le_bytes());
    expected.extend_from_slice(&(msg.len() as u32).to_le_bytes());
    expected.extend_from_slice(msg);
    assert_eq!(r, expected);
}

#[test]
fn keys_enumerates_bound_keys() {
    let mut map = HMap::new();
    let mut conn = Conn::new();
    exchange(&mut conn, &mut map, &[b"SET", b"a", b"1"]);
    exchange(&mut conn, &mut map, &[b"SET", b"b", b"2"]);
    let r = exchange(&mut conn, &mut map, &[b"KEYS"]);
    let payload = &r[4..];
    let toks = decode_response(payload).expect("reply must decode");
    assert_eq!(toks.len(), 4);
    assert_eq!(toks[0], Token::ArrStart { len: 2 });
    assert_eq!(toks[3], Token::ArrEnd);
    let mut got: Vec<Vec<u8>> = Vec::new();
    for t in &toks[1..3] {
        match t {
            Token::Str { data } => got.push(data.clone()),
            other => panic!("expected a string element, got {:?}", other),
        }
    }
    got.sort();
    assert_eq!(got, vec![b"a".to_vec(), b"b".to_vec()]);
}

#[test]
fn responses_in_request_order() {
    let mut map = HMap::new();
    let mut conn = Conn::new();
    // Two pipelined requests arrive at once; replies come back in order,
    // one at a time, because only one reply fits in the write buffer.
    let mut both = frame(&[b"SET", b"a", b"1"]);
    both.extend_from_slice(&frame(&[b"GET", b"a"]));
    conn.feed(&both);
    assert!(conn.try_one_request(&mut map));
    let r1 = conn.pending();
    assert_eq!(r1, vec![0x01, 0x00, 0x00, 0x00, 0x00]);
    let n1 = r1.len();
    conn.on_write(n1);
    assert_eq!(conn.state, State::Reading);
    assert!(conn.try_one_request(&mut map));
    let r2 = conn.pending();
    assert_eq!(
        r2,
        vec![0x06, 0x00, 0x00, 0x00, 0x02, 0x01, 0x00, 0x00, 0x00, 0x31]
    );
}

#[test]
fn frame_guard_closes_without_reply() {
    let mut map = HMap::new();
    let mut conn = Conn::new();
    // total_len = 4097 > K_MAX_MSG
    conn.feed(&4097u32.to_le_bytes());
    assert!(!conn.try_one_request(&mut map));
    assert_eq!(conn.state, State::Closed);
    assert!(conn.pending().is_empty());
}

#[test]
fn malformed_request_closes_without_reply() {
    let mut map = HMap::new();
    let mut conn = Conn::new();
    // nargs = 1 but no argument follows: trailing-garbage / truncation
    let mut f: Vec<u8> = Vec::new();
    f.extend_from_slice(&4u32.to_le_bytes());
    f.extend_from_slice(&1u32.to_le_bytes());
    conn.feed(&f);
    assert!(!conn.try_one_request(&mut map));
    assert_eq!(conn.state, State::Closed);
    assert!(conn.pending().is_empty());
}

#[test]
fn partial_frame_waits_for_more_bytes() {
    let mut map = HMap::new();
    let mut conn = Conn::new();
    let f = frame(&[b"GET", b"x"]);
    conn.feed(&f[..3]);
    assert!(!conn.try_one_request(&mut map));
    assert_eq!(conn.state, State::Reading);
    conn.feed(&f[3..]);
    assert!(conn.try_one_request(&mut map));
    assert_eq!(conn.pending(), vec![0x01, 0x00, 0x00, 0x00, 0x00]);
}

#[test]
fn nargs_zero_is_unknown_command() {
    let mut map = HMap::new();
    let mut conn = Conn::new();
    // payload = just "nargs = 0": accepted as a no-op command
    let mut f: Vec<u8> = Vec::new();
    f.extend_from_slice(&4u32.to_le_bytes());
    f.extend_from_slice(&0u32.to_le_bytes());
    conn.feed(&f);
    assert!(conn.try_one_request(&mut map));
    assert_eq!(conn.state, State::Writing);
    let r = conn.pending();
    assert_eq!(r[4], 0x01); // an ERR reply, connection stays open
}

#[test]
fn empty_argument_accepted() {
    let mut map = HMap::new();
    let mut conn = Conn::new();
    exchange(&mut conn, &mut map, &[b"SET", b"k", b""]);
    let r = exchange(&mut conn, &mut map, &[b"GET", b"k"]);
    assert_eq!(r, vec![0x05, 0x00, 0x00, 0x00, 0x02, 0x00, 0x00, 0x00, 0x00]);
}

#[test]
fn request_of_exactly_max_msg_accepted() {
    let mut map = HMap::new();
    let mut conn = Conn::new();
    // payload = 4 + (4+3) + (4+1) + (4+4076) = 4096 bytes exactly
    let big = vec![0x61u8; 4076];
    let words: Vec<Vec<u8>> = vec![b"set".to_vec(), b"k".to_vec(), big.clone()];
    let f = encode_req(&words).expect("a request of exactly K_MAX_MSG payload fits");
    assert_eq!(f.len(), 4 + K_MAX_MSG);
    conn.feed(&f);
    assert!(conn.try_one_request(&mut map));
    let r = conn.pending();
    assert_eq!(r, vec![0x01, 0x00, 0x00, 0x00, 0x00]);
}

#[test]
fn request_over_max_msg_rejected_by_encoder() {
    let words: Vec<Vec<u8>> = vec![b"set".to_vec(), b"k".to_vec(), vec![0x61u8; 4077]];
    assert!(encode_req(&words).is_none());
}

#[test]
fn request_round_trip() {
    let words: Vec<Vec<u8>> = vec![b"set".to_vec(), b"some key".to_vec(), vec![0u8, 255u8, 7u8]];
    let f = encode_req(&words).unwrap();
    let total = u32::from_le_bytes([f[0], f[1], f[2], f[3]]) as usize;
    assert_eq!(total, f.len() - 4);
    let parsed = parse_req(&f[4..]).expect("the encoding must parse back");
    assert_eq!(parsed, words);
}

#[test]
fn parse_rejects_too_many_args() {
    let mut p: Vec<u8> = Vec::new();
    p.extend_from_slice(&1025u32.to_le_bytes());
    assert!(parse_req(&p).is_none());
}

#[test]
fn parse_rejects_overrunning_argument() {
    let mut p: Vec<u8> = Vec::new();
    p.extend_from_slice(&1u32.to_le_bytes());
    p.extend_from_slice(&10u32.to_le_bytes()); // claims 10 bytes, none follow
    assert!(parse_req(&p).is_none());
}

#[test]
fn parse_rejects_trailing_garbage() {
    let words: Vec<Vec<u8>> = vec![b"get".to_vec(), b"k".to_vec()];
    let f = encode_req(&words).unwrap();
    let mut p = f[4..].to_vec();
    p.push(0);
    assert!(parse_req(&p).is_none());
}

#[test]
fn decode_nested_array() {
    // ARR 2 [ INT -1, ARR 1 [ STR "x" ] ]
    let mut p: Vec<u8> = Vec::new();
    p.push(4);
    p.extend_from_slice(&2u32.to_le_bytes());
    p.push(3);
    p.extend_from_slice(&(-1i64).to_le_bytes());
    p.push(4);
    p.extend_from_slice(&1u32.to_le_bytes());
    p.push(2);
    p.extend_from_slice(&1u32.to_le_bytes());
    p.push(b'x');
    let toks = decode_response(&p).expect("nested arrays decode");
    assert_eq!(
        toks,
        vec![
            Token::ArrStart { len: 2 },
            Token::Int { value: -1 },
            Token::ArrStart { len: 1 },
            Token::Str { data: b"x".to_vec() },
            Token::ArrEnd,
            Token::ArrEnd,
        ]
    );
}

#[test]
fn decode_rejects_unknown_tag() {
    assert!(decode_response(&[9u8]).is_err());
}

#[test]
fn decode_rejects_truncated_value() {
    // STR claiming 5 bytes with only 2 present
    let mut p: Vec<u8> = Vec::new();
    p.push(2);
    p.extend_from_slice(&5u32.to_le_bytes());
    p.extend_from_slice(b"ab");
    assert!(decode_response(&p).is_err());
}

#[test]
fn decode_rejects_trailing_bytes() {
    assert!(decode_response(&[0u8, 0u8]).is_err());
}

#[test]
fn decode_error_value() {
    let mut p: Vec<u8> = Vec::new();
    p.push(1);
    p.extend_from_slice(&2u32.to_le_bytes());
    p.extend_from_slice(&2u32.to_le_bytes());
    p.extend_from_slice(b"no");
    let toks = decode_response(&p).unwrap();
    assert_eq!(
        toks,
        vec![Token::Error { code: 2, msg: b"no".to_vec() }]
    );
}
