use sashstore::memb::serialize::{buf_encode, encode, encode_with_buf, slice_to_u32, Decoder};
use sashstore::memb::{ClientValue, DecodeError, ServerValue};

fn frame(req_id: u16, body: &[u8]) -> Vec<u8> {
    let mut v = Vec::new();
    v.extend_from_slice(&[(req_id >> 8) as u8, (req_id & 0xff) as u8, 0, 0, 0, 1, 0, 0]);
    v.extend_from_slice(body);
    v
}

#[test]
fn decode_set_frame() {
    let mut d = Decoder::new(frame(0x002a, b"set foo 7 0 3\r\nbar\r\n"));
    match d.decode().unwrap() {
        ClientValue::Put(req_id, key, flags, data) => {
            assert_eq!(req_id, 0x002a);
            assert_eq!(key, b"foo".to_vec());
            assert_eq!(flags, 7);
            assert_eq!(data, b"bar".to_vec());
        }
        other => panic!("decoded {:?}", other),
    }
}

#[test]
fn decode_get_frame() {
    let mut d = Decoder::new(frame(0x002b, b"get foo\r\n"));
    match d.decode().unwrap() {
        ClientValue::Get(req_id, key) => {
            assert_eq!(req_id, 0x002b);
            assert_eq!(key, b"foo".to_vec());
        }
        other => panic!("decoded {:?}", other),
    }
}

#[test]
fn decode_multidigit_flags() {
    let mut d = Decoder::new(frame(1, b"set k 4294967295 0 1\r\nx\r\n"));
    match d.decode().unwrap() {
        ClientValue::Put(_, _, flags, _) => assert_eq!(flags, u32::MAX),
        other => panic!("decoded {:?}", other),
    }
}

#[test]
fn decode_short_buffer_is_eof() {
    let mut d = Decoder::new(vec![0, 1, 2]);
    assert_eq!(d.decode().unwrap_err(), DecodeError::UnexpectedEof);
}

#[test]
fn decode_unknown_verb_is_invalid() {
    let mut d = Decoder::new(frame(1, b"put foo 7 0 3\r\nbar\r\n"));
    assert_eq!(d.decode().unwrap_err(), DecodeError::InvalidOpCode);
}

#[test]
fn decode_malformed_flags_is_invalid() {
    let mut d = Decoder::new(frame(1, b"set foo x7 0 3\r\nbar\r\n"));
    assert_eq!(d.decode().unwrap_err(), DecodeError::InvalidOpCode);
}

#[test]
fn decode_oversize_flags_is_invalid() {
    let mut d = Decoder::new(frame(1, b"set foo 4294967296 0 1\r\nx\r\n"));
    assert_eq!(d.decode().unwrap_err(), DecodeError::InvalidOpCode);
}

#[test]
fn decode_unterminated_get_is_eof() {
    let mut d = Decoder::new(frame(1, b"get foo"));
    assert_eq!(d.decode().unwrap_err(), DecodeError::UnexpectedEof);
}

#[test]
fn decode_set_without_data_line_is_eof() {
    let mut d = Decoder::new(frame(1, b"set foo 7 0 3"));
    assert_eq!(d.decode().unwrap_err(), DecodeError::UnexpectedEof);
}

#[test]
fn read_exact_pulls_the_next_bytes() {
    let mut d = Decoder::new(vec![1, 2, 3, 4, 5]);
    let mut buf = vec![0u8; 3];
    d.read_exact(&mut buf).unwrap();
    assert_eq!(buf, vec![1, 2, 3]);
    let mut rest = vec![0u8; 2];
    d.read_exact(&mut rest).unwrap();
    assert_eq!(rest, vec![4, 5]);
}

#[test]
fn decoder_hands_buffer_back() {
    let buf = frame(9, b"get foo\r\n");
    let copy = buf.clone();
    let mut d = Decoder::new(buf);
    let _ = d.decode();
    assert_eq!(d.destroy(), copy);
}

#[test]
fn encode_stored_is_bit_exact() {
    let out = encode(&ServerValue::Stored(0x002a));
    assert_eq!(out, frame(0x002a, b"STORED\r\n"));
}

#[test]
fn encode_not_stored_is_bit_exact() {
    let out = encode(&ServerValue::NotStored(0x0101));
    assert_eq!(out, frame(0x0101, b"NOT_STORED\r\n"));
}

#[test]
fn encode_value_is_bit_exact() {
    // Note the two spaces before the flags: the dialect carries them.
    let out = encode(&ServerValue::Value(0x002b, b"foo".to_vec(), 7, b"bar".to_vec()));
    assert_eq!(out, frame(0x002b, b"VALUE foo  7 3\r\nbar\r\n END\r\n"));
}

#[test]
fn encode_zero_flags_and_empty_value() {
    let out = encode(&ServerValue::Value(2, b"k".to_vec(), 0, Vec::new()));
    assert_eq!(out, frame(2, b"VALUE k  0 0\r\n\r\n END\r\n"));
}

#[test]
fn frame_header_echoes_request_id() {
    let out = encode(&ServerValue::Stored(0x1234));
    assert_eq!(&out[..8], &[0x12, 0x34, 0, 0, 0, 1, 0, 0]);
}

#[test]
fn encode_with_buf_reuses_allocation() {
    let buf: Vec<u8> = Vec::with_capacity(1500);
    let before = buf.capacity();
    let out = encode_with_buf(buf, &ServerValue::Stored(1));
    assert!(out.capacity() >= before);
    assert_eq!(out, frame(1, b"STORED\r\n"));
}

#[test]
fn buf_encode_replaces_buffer_contents() {
    let mut buf = b"leftover bytes from the request".to_vec();
    buf_encode(&ServerValue::NotStored(3), &mut buf);
    assert_eq!(buf, frame(3, b"NOT_STORED\r\n"));
}

#[test]
fn slice_to_u32_reads_big_endian() {
    assert_eq!(slice_to_u32(&[0x01, 0x02, 0x03, 0x04]), 0x01020304);
    assert_eq!(slice_to_u32(&[0xff, 0, 0, 1]), 0xff000001);
}
