use png_cushion::chunk::Chunk;
use png_cushion::chunk_type::ChunkType;
use png_cushion::error::PngError;
use std::str::FromStr;

fn testing_chunk() -> Chunk {
    let data_length: u32 = 42;
    let chunk_type = "RuSt".as_bytes();
    let message_bytes = "This is where your secret message will be!".as_bytes();
    let crc: u32 = 2882656334;

    let chunk_data: Vec<u8> = data_length
        .to_be_bytes()
        .iter()
        .chain(chunk_type.iter())
        .chain(message_bytes.iter())
        .chain(crc.to_be_bytes().iter())
        .copied()
        .collect();

    Chunk::try_from(chunk_data.as_ref()).unwrap()
}

fn framed(length: u32, tag: &[u8], data: &[u8], crc: u32) -> Vec<u8> {
    length
        .to_be_bytes()
        .iter()
        .chain(tag.iter())
        .chain(data.iter())
        .chain(crc.to_be_bytes().iter())
        .copied()
        .collect()
}

#[test]
fn test_new_chunk() {
    let chunk_type = ChunkType::from_str("RuSt").unwrap();
    let data = "This is where your secret message will be!"
        .as_bytes()
        .to_vec();
    let chunk = Chunk::new(chunk_type, data);
    assert_eq!(chunk.length(), 42);
    assert_eq!(chunk.crc(), 2882656334);
}

#[test]
fn test_chunk_length() {
    let chunk = testing_chunk();
    assert_eq!(chunk.length(), 42);
}

#[test]
fn test_chunk_type() {
    let chunk = testing_chunk();
    assert_eq!(chunk.chunk_type().to_string(), String::from("RuSt"));
}

#[test]
fn test_chunk_string() {
    let chunk = testing_chunk();
    let chunk_string = chunk.data_as_string().unwrap();
    let expected_chunk_string = String::from("This is where your secret message will be!");
    assert_eq!(chunk_string, expected_chunk_string);
}

#[test]
fn test_chunk_crc() {
    let chunk = testing_chunk();
    assert_eq!(chunk.crc(), 2882656334);
}

#[test]
fn test_valid_chunk_from_bytes() {
    let data_length: u32 = 42;
    let chunk_type = "RuSt".as_bytes();
    let message_bytes = "This is where your secret message will be!".as_bytes();
    let crc: u32 = 2882656334;

    let chunk_data: Vec<u8> = data_length
        .to_be_bytes()
        .iter()
        .chain(chunk_type.iter())
        .chain(message_bytes.iter())
        .chain(crc.to_be_bytes().iter())
        .copied()
        .collect();

    let chunk = Chunk::try_from(chunk_data.as_ref()).unwrap();

    let chunk_string = chunk.data_as_string().unwrap();
    let expected_chunk_string = String::from("This is where your secret message will be!");

    assert_eq!(chunk.length(), 42);
    assert_eq!(chunk.chunk_type().to_string(), String::from("RuSt"));
    assert_eq!(chunk_string, expected_chunk_string);
    assert_eq!(chunk.crc(), 2882656334);
}

#[test]
fn test_invalid_chunk_from_bytes() {
    let data_length: u32 = 42;
    let chunk_type = "RuSt".as_bytes();
    let message_bytes = "This is where your secret message will be!".as_bytes();
    let crc: u32 = 2882656333;

    let chunk_data: Vec<u8> = data_length
        .to_be_bytes()
        .iter()
        .chain(chunk_type.iter())
        .chain(message_bytes.iter())
        .chain(crc.to_be_bytes().iter())
        .copied()
        .collect();

    let chunk = Chunk::try_from(chunk_data.as_ref());

    assert!(chunk.is_err());
}

#[test]
pub fn test_chunk_trait_impls() {
    let data_length: u32 = 42;
    let chunk_type = "RuSt".as_bytes();
    let message_bytes = "This is where your secret message will be!".as_bytes();
    let crc: u32 = 2882656334;

    let chunk_data: Vec<u8> = data_length
        .to_be_bytes()
        .iter()
        .chain(chunk_type.iter())
        .chain(message_bytes.iter())
        .chain(crc.to_be_bytes().iter())
        .copied()
        .collect();

    let chunk: Chunk = Chunk::try_from(chunk_data.as_slice()).unwrap();

    let _chunk_string = chunk.data_as_string().unwrap();
}

#[test]
fn chunk_checksum_of_sample_message() {
    let tag = ChunkType::from_str("RuSt").unwrap();
    let message = b"This is where your secret message will be!".to_vec();
    assert_eq!(message.len(), 42);
    let chunk = Chunk::new(tag, message);
    assert_eq!(chunk.length(), 42);
    assert_eq!(chunk.crc(), 2882656334);
}

#[test]
fn chunk_checksum_of_empty_payload() {
    let tag = ChunkType::from_str("IEND").unwrap();
    let chunk = Chunk::new(tag, Vec::new());
    assert_eq!(chunk.length(), 0);
    assert_eq!(chunk.crc(), 0xAE42_6082);
    assert_eq!(
        chunk.as_bytes(),
        vec![0, 0, 0, 0, b'I', b'E', b'N', b'D', 0xAE, 0x42, 0x60, 0x82]
    );
}

#[test]
fn chunk_bytes_layout() {
    let tag = ChunkType::from_str("RuSt").unwrap();
    let chunk = Chunk::new(tag, b"hi".to_vec());
    let bytes = chunk.as_bytes();
    assert_eq!(bytes.len(), 14);
    assert_eq!(&bytes[0..4], &[0, 0, 0, 2]);
    assert_eq!(&bytes[4..8], b"RuSt");
    assert_eq!(&bytes[8..10], b"hi");
    assert_eq!(&bytes[10..14], &chunk.crc().to_be_bytes());
}

#[test]
fn chunk_round_trip() {
    for data in [Vec::new(), b"x".to_vec(), vec![0u8, 255, 13, 10], vec![7u8; 300]] {
        let tag = ChunkType::from_str("teSt").unwrap();
        let chunk = Chunk::new(tag, data.clone());
        let back = Chunk::try_from(chunk.as_bytes().as_slice()).unwrap();
        assert_eq!(back.chunk_type(), chunk.chunk_type());
        assert_eq!(back.data(), data.as_slice());
        assert_eq!(back.length(), chunk.length());
        assert_eq!(back.crc(), chunk.crc());
    }
}

#[test]
fn chunk_decode_ignores_trailing_bytes() {
    let tag = ChunkType::from_str("RuSt").unwrap();
    let mut bytes = Chunk::new(tag, b"abc".to_vec()).as_bytes();
    bytes.extend_from_slice(&[1, 2, 3]);
    let back = Chunk::try_from(bytes.as_slice()).unwrap();
    assert_eq!(back.data(), b"abc");
}

#[test]
fn chunk_flipped_byte_is_checksum_mismatch() {
    let tag = ChunkType::from_str("RuSt").unwrap();
    let chunk = Chunk::new(tag, b"This is where your secret message will be!".to_vec());
    let bytes = chunk.as_bytes();
    for i in 4..bytes.len() - 4 {
        let mut altered = bytes.clone();
        // swap letter case in the tag, flip every bit in the payload
        altered[i] ^= if i < 8 { 0x20 } else { 0xFF };
        match Chunk::try_from(altered.as_slice()) {
            Err(PngError::ChecksumMismatch { stored, computed }) => {
                assert_eq!(stored, chunk.crc());
                assert_ne!(computed, stored);
            }
            other => panic!("byte {} gave {:?}", i, other.map(|c| c.crc())),
        }
    }
}

#[test]
fn chunk_wrong_checksum_reports_both_values() {
    let bytes = framed(3, b"RuSt", b"abc", 1);
    let computed = Chunk::new(ChunkType::from_str("RuSt").unwrap(), b"abc".to_vec()).crc();
    assert_eq!(
        Chunk::try_from(bytes.as_slice()).unwrap_err(),
        PngError::ChecksumMismatch { stored: 1, computed }
    );
}

#[test]
fn chunk_truncated_at_each_field() {
    let full = Chunk::new(ChunkType::from_str("RuSt").unwrap(), b"abcdef".to_vec()).as_bytes();
    assert_eq!(full.len(), 18);
    let expect = |cut: usize, needed: u64| {
        assert_eq!(
            Chunk::try_from(&full[..cut]).unwrap_err(),
            PngError::Truncated { needed, available: cut as u64 }
        );
    };
    expect(0, 4);
    expect(3, 4);
    expect(4, 8);
    expect(7, 8);
    expect(8, 14);
    expect(13, 14);
    expect(14, 18);
    expect(17, 18);
}

#[test]
fn chunk_huge_declared_length_is_truncated() {
    let bytes = framed(u32::MAX, b"RuSt", b"ab", 0);
    assert_eq!(
        Chunk::try_from(bytes.as_slice()).unwrap_err(),
        PngError::Truncated { needed: u32::MAX as u64 + 8, available: 14 }
    );
}

#[test]
fn chunk_bad_tag_is_invalid_tag() {
    let bytes = framed(0, b"Ru1t", b"", 0);
    assert_eq!(Chunk::try_from(bytes.as_slice()).unwrap_err(), PngError::InvalidTag);
}

#[test]
fn chunk_binary_payload_is_invalid_text() {
    let chunk = Chunk::new(ChunkType::from_str("RuSt").unwrap(), vec![0xFF, 0xFE]);
    assert_eq!(chunk.data_as_string(), Err(PngError::InvalidText));
    let text = Chunk::new(ChunkType::from_str("RuSt").unwrap(), "h\u{e9}".as_bytes().to_vec());
    assert_eq!(text.data_as_string().unwrap(), "h\u{e9}");
}
