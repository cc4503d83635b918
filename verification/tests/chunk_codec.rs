use dirsync::file_chunk::{decode_chunk_header, FileChunk};
use dirsync::errors::GenericError;
use dirsync::{FILE_CHUNK_MAX_SIZE, FILE_CHUNK_SIZE};

fn be_bytes(x: u64) -> Vec<u8> {
    let mut v = Vec::new();
    let mut i = 0;
    while i < 8 {
        v.push((x >> (56 - 8 * i)) as u8);
        i += 1;
    }
    v
}

#[test]
fn chunk_new_is_empty() {
    let c = FileChunk::new();
    assert_eq!(c.offset, 0);
    assert_eq!(c.size, 0);
    assert_eq!(c.data.len(), 0);
}

#[test]
fn chunk_frame_limit_constants() {
    assert_eq!(FILE_CHUNK_SIZE, 8 * 1024 * 1024);
    assert_eq!(FILE_CHUNK_MAX_SIZE, 16 + 8 * 1024 * 1024);
}

#[test]
fn encode_exact_wire_layout() {
    let c = FileChunk { offset: 0x0102030405060708, size: 3, data: vec![10, 20, 30] };
    let bytes = c.to_bytes();
    assert_eq!(bytes.len(), 19);
    assert_eq!(&bytes[0..8], &[1, 2, 3, 4, 5, 6, 7, 8]);
    assert_eq!(&bytes[8..16], &[0, 0, 0, 0, 0, 0, 0, 3]);
    assert_eq!(&bytes[16..], &[10, 20, 30]);
}

#[test]
fn decode_encoded_chunk_gives_back_the_chunk() {
    let c = FileChunk { offset: 12345, size: 5, data: vec![9, 8, 7, 6, 5] };
    let bytes = c.to_bytes();
    let back = FileChunk::from_bytes(&bytes);
    assert_eq!(back.offset, 12345);
    assert_eq!(back.size, 5);
    assert_eq!(back.data, vec![9, 8, 7, 6, 5]);
}

#[test]
fn round_trip_one_byte_payload() {
    let c = FileChunk { offset: u64::MAX - 7, size: 1, data: vec![0xAB] };
    let back = FileChunk::from_bytes(&c.to_bytes());
    assert_eq!(back.offset, u64::MAX - 7);
    assert_eq!(back.size, 1);
    assert_eq!(back.data, vec![0xAB]);
}

#[test]
fn header_ok_for_positive_size_within_limit() {
    let mut h = be_bytes(7);
    h.extend_from_slice(&be_bytes(5));
    let r = decode_chunk_header(&h);
    assert!(matches!(r, Ok((7, 5))));
}

#[test]
fn header_ok_for_size_at_exact_limit() {
    let mut h = be_bytes(0);
    h.extend_from_slice(&be_bytes(FILE_CHUNK_SIZE as u64));
    let r = decode_chunk_header(&h);
    assert!(matches!(r, Ok((0, s)) if s == FILE_CHUNK_SIZE as u64));
}

#[test]
fn header_zero_size_is_a_framing_error() {
    let mut h = be_bytes(42);
    h.extend_from_slice(&be_bytes(0));
    let r = decode_chunk_header(&h);
    assert!(matches!(r, Err(GenericError::FramingError(_))));
}

#[test]
fn header_oversized_payload_is_a_framing_error() {
    let mut h = be_bytes(0);
    h.extend_from_slice(&be_bytes(FILE_CHUNK_SIZE as u64 + 1));
    let r = decode_chunk_header(&h);
    assert!(matches!(r, Err(GenericError::FramingError(_))));
}

#[test]
fn custom_error_keeps_its_message() {
    let e = dirsync::errors::new_custom_error("stream closed");
    assert!(matches!(e, GenericError::CustomError(m) if m == "stream closed"));
}
