//! The wire format.

use kvtier::block::{BlockHash, BlockLayout, DType};
use kvtier::proto::{
    blocks_per_frame, decode_info, dtype_code, dtype_from_code, encode_info, Header, Opcode,
    ProtoError, Reader, ServerInfo, Writer, HASH_BYTES, HEADER_BYTES, MAGIC,
    MAX_BLOCKS_PER_REQUEST, MAX_PAYLOAD, VERSION,
};

#[test]
fn header_round_trips() {
    let header = Header::new(Opcode::GetBlocks, 0xDEAD_BEEF, 4096);
    let decoded = Header::decode(&header.encode()).unwrap();
    assert_eq!(header, decoded);
}

#[test]
fn header_rejects_a_desynced_stream() {
    let mut bytes = Header::new(Opcode::Stats, 1, 0).encode();
    bytes[0] ^= 0xFF;
    assert!(matches!(
        Header::decode(&bytes),
        Err(ProtoError::BadMagic(_))
    ));
}

#[test]
fn header_rejects_unknown_version_and_opcode() {
    let mut bytes = Header::new(Opcode::Stats, 1, 0).encode();
    bytes[4] = 99;
    assert_eq!(Header::decode(&bytes), Err(ProtoError::BadVersion(99)));

    let mut bytes = Header::new(Opcode::Stats, 1, 0).encode();
    bytes[5] = 42;
    assert_eq!(Header::decode(&bytes), Err(ProtoError::BadOpcode(42)));
}

#[test]
fn header_refuses_an_oversized_payload() {
    let mut bytes = Header::new(Opcode::PutBlocks, 1, 0).encode();
    bytes[12..16].copy_from_slice(&u32::MAX.to_be_bytes());
    assert!(matches!(
        Header::decode(&bytes),
        Err(ProtoError::PayloadTooLarge(_))
    ));
}

#[test]
fn reader_refuses_to_read_past_the_end() {
    let mut reader = Reader::new(&[0, 0, 0]);
    assert_eq!(reader.u32(), Err(ProtoError::Truncated));
}

#[test]
fn reader_caps_the_block_count() {
    let mut writer = Writer::new();
    writer.u32(1_000_000);
    let payload = writer.finish();
    assert!(matches!(
        Reader::new(&payload).block_count(),
        Err(ProtoError::TooManyBlocks(1_000_000))
    ));
}

#[test]
fn reader_notices_leftover_bytes() {
    let mut writer = Writer::new();
    writer.u32(7).u32(9);
    let payload = writer.finish();
    let mut reader = Reader::new(&payload);
    reader.u32().unwrap();
    assert_eq!(reader.finish(), Err(ProtoError::TrailingBytes(4)));
}

#[test]
fn hashes_round_trip() {
    let hashes: Vec<BlockHash> = (0u8..4)
        .map(|i| BlockHash::from_bytes([i; HASH_BYTES]))
        .collect();
    let mut writer = Writer::new();
    writer.hashes(&hashes);
    let payload = writer.finish();

    let mut reader = Reader::new(&payload);
    assert_eq!(reader.hashes().unwrap(), hashes);
    reader.finish().unwrap();
}

#[test]
fn frame_capacity_follows_block_size() {
    // Tiny blocks are limited by the count cap, real ones by bytes.
    assert_eq!(
        blocks_per_frame(BlockLayout::tiny().block_bytes()),
        MAX_BLOCKS_PER_REQUEST
    );

    let big = BlockLayout::llama3_8b().block_bytes();
    let fits = blocks_per_frame(big);
    assert!((1..MAX_BLOCKS_PER_REQUEST).contains(&fits));
    assert!(
        4 + fits * big <= MAX_PAYLOAD,
        "{fits} blocks of {big} bytes must fit a frame"
    );
    assert!(
        4 + (fits + 1) * big > MAX_PAYLOAD,
        "must not be pessimistic"
    );
}

#[test]
fn info_round_trips() {
    let info = ServerInfo {
        model_id: "llama-3-8b".to_string(),
        layout: BlockLayout::llama3_8b(),
    };
    assert_eq!(decode_info(&encode_info(&info)).unwrap(), info);
}

#[test]
fn a_header_is_sixteen_bytes_in_network_order() {
    let bytes = Header::new(Opcode::PutBlocks, 0x0102_0304, 0x0506).encode();
    let mut expected = Vec::new();
    expected.extend_from_slice(&MAGIC.to_be_bytes());
    expected.push(VERSION);
    expected.push(Opcode::PutBlocks.code());
    expected.extend_from_slice(&[0, 0]);
    expected.extend_from_slice(&[1, 2, 3, 4]);
    expected.extend_from_slice(&[0, 0, 5, 6]);
    assert_eq!(bytes.to_vec(), expected);
    assert_eq!(bytes.len(), HEADER_BYTES);
}

#[test]
fn opcodes_and_element_types_round_trip() {
    for opcode in [
        Opcode::Info,
        Opcode::MatchPrefix,
        Opcode::GetBlocks,
        Opcode::PutBlocks,
        Opcode::Stats,
        Opcode::Error,
    ] {
        assert_eq!(Opcode::from_u8(opcode.code()), Some(opcode));
    }
    assert_eq!(Opcode::from_u8(0), None);
    for dtype in [DType::F32, DType::F16, DType::BF16, DType::F8] {
        assert_eq!(dtype_from_code(dtype_code(dtype)), Some(dtype));
    }
    assert_eq!(dtype_from_code(200), None);
}

#[test]
fn numbers_and_text_round_trip() {
    let mut writer = Writer::new();
    writer
        .u8(200)
        .u16(60_000)
        .u32(4_000_000_000)
        .u64(u64::MAX - 1)
        .hash(BlockHash::from_bytes([5; 16]))
        .string("na\u{ef}ve")
        .bytes(&[1, 2]);
    let payload = writer.finish();

    let mut reader = Reader::new(&payload);
    assert_eq!(reader.remaining(), payload.len());
    assert_eq!(reader.u8(), Ok(200));
    assert_eq!(reader.u16(), Ok(60_000));
    assert_eq!(reader.u32(), Ok(4_000_000_000));
    assert_eq!(reader.u64(), Ok(u64::MAX - 1));
    assert_eq!(reader.hash(), Ok(BlockHash::from_bytes([5; 16])));
    assert_eq!(reader.string(), Ok("na\u{ef}ve".to_string()));
    assert_eq!(reader.bytes(2), Ok(&[1u8, 2][..]));
    assert_eq!(reader.remaining(), 0);
    reader.finish().unwrap();
}

#[test]
fn every_field_can_be_cut_short() {
    assert_eq!(Reader::new(&[]).u8(), Err(ProtoError::Truncated));
    assert_eq!(Reader::new(&[1]).u16(), Err(ProtoError::Truncated));
    assert_eq!(Reader::new(&[1; 7]).u64(), Err(ProtoError::Truncated));
    assert_eq!(Reader::new(&[1; 15]).hash(), Err(ProtoError::Truncated));
    assert_eq!(Reader::new(&[0, 5, b'a']).string(), Err(ProtoError::Truncated));
    assert_eq!(Reader::new(&[0, 0, 0, 2, 9]).hashes(), Err(ProtoError::Truncated));
    assert_eq!(Reader::new(&[1; 4]).bytes(5), Err(ProtoError::Truncated));
}

#[test]
fn a_refused_read_keeps_what_came_before_the_fault() {
    // The length of a text that is cut off, but not a length that is.
    let mut reader = Reader::new(&[0, 5, b'a']);
    assert!(reader.string().is_err());
    assert_eq!(reader.remaining(), 1);
    let mut reader = Reader::new(&[0]);
    assert!(reader.string().is_err());
    assert_eq!(reader.remaining(), 1);

    // All of a text that is no UTF-8.
    let mut reader = Reader::new(&[0, 2, 0xC3, 0x28, 7]);
    assert!(reader.string().is_err());
    assert_eq!(reader.u8(), Ok(7));

    // A count over the cap.
    let mut reader = Reader::new(&[0, 0, 1, 1, 7]);
    assert_eq!(reader.block_count(), Err(ProtoError::TooManyBlocks(257)));
    assert_eq!(reader.u8(), Ok(7));

    // The count of a list that is cut off, and the names before the cut.
    let mut bytes = vec![0, 0, 0, 3];
    bytes.extend_from_slice(&[9; 2 * HASH_BYTES + 5]);
    let mut reader = Reader::new(&bytes);
    assert_eq!(reader.hashes(), Err(ProtoError::Truncated));
    assert_eq!(reader.remaining(), 5);
    let mut reader = Reader::new(&[0, 0, 0]);
    assert_eq!(reader.hashes(), Err(ProtoError::Truncated));
    assert_eq!(reader.remaining(), 3);
}

#[test]
fn text_that_is_no_utf8_is_refused() {
    assert_eq!(
        Reader::new(&[0, 2, 0xC3, 0x28]).string(),
        Err(ProtoError::Truncated)
    );
}

#[test]
fn a_server_description_with_an_unknown_element_type_is_refused() {
    let info = ServerInfo {
        model_id: "m".to_string(),
        layout: BlockLayout::tiny(),
    };
    let mut payload = encode_info(&info);
    payload.push(0);
    assert_eq!(decode_info(&payload), Err(ProtoError::TrailingBytes(1)));
    payload.pop();

    let last = payload.len() - 1;
    payload[last] = 99;
    assert_eq!(decode_info(&payload), Err(ProtoError::LayoutMismatch));
    payload.pop();
    assert_eq!(decode_info(&payload), Err(ProtoError::Truncated));
}

#[test]
fn errors_say_what_went_wrong() {
    for (error, text) in [
        (ProtoError::BadMagic(0x0EAD_BEEF), "bad magic 0x0eadbeef"),
        (ProtoError::BadVersion(99), "unsupported version 99"),
        (ProtoError::BadOpcode(42), "unknown opcode 42"),
        (
            ProtoError::PayloadTooLarge(70_000_000),
            "payload 70000000 over cap 67108864",
        ),
        (
            ProtoError::TooManyBlocks(1_000_000),
            "1000000 blocks over cap 256",
        ),
        (ProtoError::Truncated, "payload ended mid-field"),
        (ProtoError::TrailingBytes(4), "4 unread bytes after message"),
        (
            ProtoError::LayoutMismatch,
            "peer block layout does not match",
        ),
    ] {
        assert_eq!(error.message(), text);
    }
}
