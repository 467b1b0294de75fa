use pgpooler::errors::ConnectionPoolerError;
use pgpooler::wire::{try_parse_wire_message, try_parse_wire_messages};

fn encode(tag: u8, payload: &[u8]) -> Vec<u8> {
    let mut out = vec![tag];
    out.extend_from_slice(&((payload.len() as u32 + 4).to_be_bytes()));
    out.extend_from_slice(payload);
    out
}

#[test]
fn decodes_query_hello() {
    let buf = [0x51, 0x00, 0x00, 0x00, 0x09, 0x68, 0x65, 0x6C, 0x6C, 0x6F];
    let (n, m) = try_parse_wire_message(&buf).unwrap();
    assert_eq!(n, 10);
    let m = m.unwrap();
    assert_eq!(m.tag, b'Q');
    assert_eq!(m.payload, b"hello".to_vec());
    assert_eq!(m.total_wire_size(), 10);
}

#[test]
fn short_header_is_incomplete() {
    let (n, m) = try_parse_wire_message(&[0x51, 0x00, 0x00, 0x00]).unwrap();
    assert_eq!(n, 0);
    assert!(m.is_none());
    let (n, m) = try_parse_wire_message(&[]).unwrap();
    assert_eq!(n, 0);
    assert!(m.is_none());
}

#[test]
fn short_payload_is_incomplete() {
    let buf = [0x51, 0x00, 0x00, 0x00, 0x09, 0x68, 0x65];
    let (n, m) = try_parse_wire_message(&buf).unwrap();
    assert_eq!(n, 0);
    assert!(m.is_none());
}

#[test]
fn length_below_four_is_decode_error() {
    let buf = [0x51, 0x00, 0x00, 0x00, 0x03, 0x00];
    assert_eq!(try_parse_wire_message(&buf).unwrap_err(), ConnectionPoolerError::DecodeError);
    assert_eq!(try_parse_wire_messages(&buf).unwrap_err(), ConnectionPoolerError::DecodeError);
}

#[test]
fn empty_payload_frame() {
    let buf = [b'S', 0x00, 0x00, 0x00, 0x04];
    let (n, m) = try_parse_wire_message(&buf).unwrap();
    assert_eq!(n, 5);
    let m = m.unwrap();
    assert_eq!(m.tag, b'S');
    assert!(m.payload.is_empty());
}

#[test]
fn round_trip_one_frame() {
    let payload: Vec<u8> = (0..300u32).map(|i| (i % 251) as u8).collect();
    let buf = encode(b'D', &payload);
    let (n, m) = try_parse_wire_message(&buf).unwrap();
    assert_eq!(n, 5 + payload.len());
    let m = m.unwrap();
    assert_eq!(m.tag, b'D');
    assert_eq!(m.payload, payload);
    let (ms, residue) = try_parse_wire_messages(&buf).unwrap();
    assert_eq!(ms.len(), 1);
    assert!(residue.is_empty());
}

#[test]
fn many_frames_and_residue() {
    let mut buf = encode(b'Q', b"select 1");
    buf.extend(encode(b'X', b""));
    buf.extend_from_slice(&[b'Z', 0x00, 0x00]);
    let (ms, residue) = try_parse_wire_messages(&buf).unwrap();
    assert_eq!(ms.len(), 2);
    assert_eq!(ms[0].tag, b'Q');
    assert_eq!(ms[0].payload, b"select 1".to_vec());
    assert_eq!(ms[1].tag, b'X');
    assert!(ms[1].payload.is_empty());
    assert_eq!(residue, vec![b'Z', 0x00, 0x00]);
}

#[test]
fn empty_buffer_decodes_nothing() {
    let (ms, residue) = try_parse_wire_messages(&[]).unwrap();
    assert!(ms.is_empty());
    assert!(residue.is_empty());
}

#[test]
fn split_reads_match_one_read() {
    let mut buf = encode(b'Q', b"hello");
    buf.extend(encode(b'P', b"abcdefghij"));
    buf.extend(encode(b'S', b""));
    let (whole, whole_residue) = try_parse_wire_messages(&buf).unwrap();
    for k in 0..=buf.len() {
        let (first, residue) = try_parse_wire_messages(&buf[..k]).unwrap();
        let mut second_input = residue.clone();
        second_input.extend_from_slice(&buf[k..]);
        let (second, residue2) = try_parse_wire_messages(&second_input).unwrap();
        let joined: Vec<(u8, Vec<u8>)> = first
            .iter()
            .chain(second.iter())
            .map(|m| (m.tag, m.payload.clone()))
            .collect();
        let expected: Vec<(u8, Vec<u8>)> = whole.iter().map(|m| (m.tag, m.payload.clone())).collect();
        assert_eq!(joined, expected);
        assert_eq!(residue2, whole_residue);
    }
}
