use sized_io::{
    decode_len, encode_len, frame_header, payload_len, payload_len_within, FrameError, ReadSizedExt, WriteSizedExt,
    HEADER_LEN, MAX_FRAME_BYTES,
};

fn round_trip(data: &[u8]) -> Vec<u8> {
    let mut sink: Vec<u8> = Vec::new();
    sink.write_sized(data);
    assert_eq!(sink.len(), HEADER_LEN + data.len());
    let mut source: &[u8] = sink.as_slice();
    let out = source.read_sized().unwrap();
    assert!(source.is_empty());
    out
}

#[test]
fn round_trip_small_payloads() {
    for len in [1usize, 2, 3, 255, 256, 1000, 65_537] {
        let data: Vec<u8> = (0..len).map(|i| (i * 7 % 251) as u8).collect();
        assert_eq!(round_trip(&data), data);
    }
}

#[test]
fn round_trip_at_ceiling() {
    let data = vec![0xA5u8; MAX_FRAME_BYTES as usize];
    assert_eq!(round_trip(&data), data);
}

#[test]
fn empty_payload_reads_back_empty() {
    let mut sink: Vec<u8> = Vec::new();
    sink.write_sized(&[]);
    assert_eq!(sink, vec![0u8; 8]);
    let mut source: &[u8] = sink.as_slice();
    assert_eq!(source.read_sized(), Ok(Vec::new()));
    assert!(source.is_empty());
}

#[test]
fn header_at_ceiling_is_accepted() {
    let header = encode_len(4_000_000);
    assert_eq!(payload_len(&header), Ok(4_000_000));
}

#[test]
fn header_above_ceiling_is_rejected() {
    let header = encode_len(4_000_001);
    assert_eq!(payload_len(&header), Err(FrameError::Oversized { len: 4_000_001 }));
    assert_eq!(
        payload_len(&[0xFF; 8]),
        Err(FrameError::Oversized { len: u64::MAX })
    );
}

#[test]
fn oversized_header_fails_before_payload() {
    // Only the header is present: a reader that went on to the payload would
    // report the end of the stream instead.
    let header = encode_len(4_000_001);
    let mut source: &[u8] = header.as_slice();
    assert_eq!(
        source.read_sized(),
        Err(FrameError::Oversized { len: 4_000_001 })
    );
}

#[test]
fn truncated_payload_is_an_error() {
    let mut bytes = encode_len(5);
    bytes.extend_from_slice(&[1, 2, 3]);
    let mut source: &[u8] = bytes.as_slice();
    assert_eq!(source.read_sized(), Err(FrameError::UnexpectedEnd));
}

#[test]
fn truncated_header_is_an_error() {
    let bytes = [0u8, 0, 0, 0, 0];
    let mut source: &[u8] = &bytes;
    assert_eq!(source.read_sized(), Err(FrameError::UnexpectedEnd));
    let mut empty: &[u8] = &[];
    assert_eq!(empty.read_sized(), Err(FrameError::UnexpectedEnd));
}

#[test]
fn three_byte_payload_wire_bytes() {
    let mut sink: Vec<u8> = Vec::new();
    sink.write_sized(&[0x41, 0x42, 0x43]);
    assert_eq!(sink, vec![0, 0, 0, 0, 0, 0, 0, 3, 0x41, 0x42, 0x43]);
    let mut source: &[u8] = sink.as_slice();
    assert_eq!(source.read_sized(), Ok(vec![0x41, 0x42, 0x43]));
}

#[test]
fn two_frames_in_order() {
    let a = vec![1u8, 2, 3, 4];
    let b = vec![9u8; 300];
    let mut sink: Vec<u8> = Vec::new();
    sink.write_sized(&a);
    sink.write_sized(&b);
    let mut source: &[u8] = sink.as_slice();
    assert_eq!(source.read_sized(), Ok(a));
    assert_eq!(source.len(), HEADER_LEN + 300);
    assert_eq!(source.read_sized(), Ok(b));
    assert!(source.is_empty());
    assert_eq!(source.read_sized(), Err(FrameError::UnexpectedEnd));
}

#[test]
fn write_appends_to_existing_bytes() {
    let mut sink: Vec<u8> = vec![7, 7];
    sink.write_sized(&[5]);
    assert_eq!(sink, vec![7, 7, 0, 0, 0, 0, 0, 0, 0, 1, 5]);
}

#[test]
fn read_leaves_following_bytes() {
    let mut bytes = encode_len(2);
    bytes.extend_from_slice(&[10, 20, 30, 40]);
    let mut source: &[u8] = bytes.as_slice();
    assert_eq!(source.read_sized(), Ok(vec![10, 20]));
    assert_eq!(source, &[30, 40]);
}

#[test]
fn header_codec_is_big_endian() {
    assert_eq!(
        encode_len(0x0102_0304_0506_0708),
        vec![1, 2, 3, 4, 5, 6, 7, 8]
    );
    assert_eq!(encode_len(0), vec![0; 8]);
    assert_eq!(encode_len(u64::MAX), vec![0xFF; 8]);
    assert_eq!(decode_len(&[1, 2, 3, 4, 5, 6, 7, 8]), 0x0102_0304_0506_0708);
    assert_eq!(decode_len(&[0, 0, 0, 0, 0, 0x3D, 0x09, 0x00]), 4_000_000);
    assert_eq!(frame_header(256), vec![0, 0, 0, 0, 0, 0, 1, 0]);
}

#[test]
fn header_codec_round_trips() {
    for n in [0u64, 1, 255, 256, 4_000_000, 4_000_001, u64::MAX - 1, u64::MAX] {
        assert_eq!(decode_len(&encode_len(n)), n);
    }
}

#[test]
fn custom_limit_is_honoured() {
    let header = encode_len(1024);
    assert_eq!(payload_len_within(&header, 1024), Ok(1024));
    assert_eq!(
        payload_len_within(&header, 1023),
        Err(FrameError::Oversized { len: 1024 })
    );
    assert_eq!(payload_len_within(&encode_len(0), 0), Ok(0));
}
