use pngme::chunk::{Chunk, MalformedChunk};
use pngme::chunk_type::ChunkType;

fn testing_chunk() -> Chunk {
    let data_length: u32 = 42;
    let chunk_type = "RuSt".as_bytes();
    let message_bytes = "This is where your secret message will be!".as_bytes();
    let crc: u32 = 2882656334;

    let chunk_data: Vec<u8> = data_length
        .to_be_bytes()
        .iter()
        .chain(chunk_type.iter())
        .chain(message_bytes.iter())
        .chain(crc.to_be_bytes().iter())
        .copied()
        .collect();

    Chunk::try_from(chunk_data.as_ref()).unwrap()
}

#[test]
fn test_new_chunk() {
    let chunk_type = ChunkType::from_str("RuSt").unwrap();
    let data = "This is where your secret message will be!"
        .as_bytes()
        .to_vec();
    let chunk = Chunk::new(chunk_type, data);
    assert_eq!(chunk.length(), 42);
    assert_eq!(chunk.crc(), 2882656334);
}

#[test]
fn test_chunk_length() {
    let chunk = testing_chunk();
    assert_eq!(chunk.length(), 42);
}

#[test]
fn test_chunk_type() {
    let chunk = testing_chunk();
    assert_eq!(chunk.chunk_type().to_string(), String::from("RuSt"));
}

#[test]
fn test_chunk_string() {
    let chunk = testing_chunk();
    let chunk_string = chunk.data_as_string().unwrap();
    let expected_chunk_string = String::from("This is where your secret message will be!");
    assert_eq!(chunk_string, expected_chunk_string);
}

#[test]
fn test_chunk_crc() {
    let chunk = testing_chunk();
    assert_eq!(chunk.crc(), 2882656334);
}

#[test]
fn test_roundtrip() {
    let chunk_type = ChunkType::from_str("RuSt").unwrap();
    let message_bytes = "This is where your secret message will be!".as_bytes();
    let chunk = Chunk::new(chunk_type, message_bytes.into());
    let crc: u32 = 2882656334;

    assert_eq!(crc, chunk.crc())
}

#[test]
fn test_valid_chunk_from_bytes() {
    let data_length: u32 = 42;
    let chunk_type = "RuSt".as_bytes();
    let message_bytes = "This is where your secret message will be!".as_bytes();
    let crc: u32 = 2882656334;

    let chunk_data: Vec<u8> = data_length
        .to_be_bytes()
        .iter()
        .chain(chunk_type.iter())
        .chain(message_bytes.iter())
        .chain(crc.to_be_bytes().iter())
        .copied()
        .collect();

    let chunk = Chunk::try_from(chunk_data.as_ref()).unwrap();

    let chunk_string = chunk.data_as_string().unwrap();
    let expected_chunk_string = String::from("This is where your secret message will be!");

    assert_eq!(chunk.length(), 42);
    assert_eq!(chunk.chunk_type().to_string(), String::from("RuSt"));
    assert_eq!(chunk_string, expected_chunk_string);
    assert_eq!(chunk.crc(), 2882656334);
}

#[test]
fn test_invalid_chunk_from_bytes() {
    let data_length: u32 = 42;
    let chunk_type = "RuSt".as_bytes();
    let message_bytes = "This is where your secret message will be!".as_bytes();
    let crc: u32 = 2882656333;

    let chunk_data: Vec<u8> = data_length
        .to_be_bytes()
        .iter()
        .chain(chunk_type.iter())
        .chain(message_bytes.iter())
        .chain(crc.to_be_bytes().iter())
        .copied()
        .collect();

    let chunk = Chunk::try_from(chunk_data.as_ref());

    assert!(chunk.is_err());
}

#[test]
pub fn test_chunk_trait_impls() {
    let data_length: u32 = 42;
    let chunk_type = "RuSt".as_bytes();
    let message_bytes = "This is where your secret message will be!".as_bytes();
    let crc: u32 = 2882656334;

    let chunk_data: Vec<u8> = data_length
        .to_be_bytes()
        .iter()
        .chain(chunk_type.iter())
        .chain(message_bytes.iter())
        .chain(crc.to_be_bytes().iter())
        .copied()
        .collect();

    let chunk: Chunk = Chunk::try_from(chunk_data.as_ref()).unwrap();

    let _chunk_string = format!("{:?}", chunk);
}

fn rust_chunk() -> Chunk {
    let t = ChunkType::from_str("RuSt").unwrap();
    Chunk::new(t, b"This is where your secret message will be!".to_vec())
}

#[test]
fn wire_bytes_have_length_type_payload_checksum() {
    let bytes = rust_chunk().as_bytes();
    assert_eq!(bytes.len(), 12 + 42);
    assert_eq!(&bytes[0..4], &[0, 0, 0, 42]);
    assert_eq!(&bytes[4..8], b"RuSt");
    assert_eq!(&bytes[8..50], b"This is where your secret message will be!");
    assert_eq!(&bytes[50..54], &2882656334u32.to_be_bytes());
}

#[test]
fn encoding_decodes_to_same_chunk() {
    for payload in [Vec::new(), vec![0u8, 255, 128, 7], b"hello".to_vec()] {
        let t = ChunkType::from_str("teSt").unwrap();
        let c = Chunk::new(t.clone(), payload.clone());
        let back = Chunk::try_from(c.as_bytes().as_slice()).unwrap();
        assert_eq!(back.chunk_type(), &t);
        assert_eq!(back.length(), payload.len());
        assert_eq!(back.crc(), Chunk::crc_checksum(&t, &payload));
        assert_eq!(back.as_bytes(), c.as_bytes());
    }
}

#[test]
fn checksum_covers_type_and_payload() {
    let t = ChunkType::from_str("RuSt").unwrap();
    let data = b"This is where your secret message will be!".to_vec();
    assert_eq!(Chunk::crc_checksum(&t, &data), 2882656334);
    // CRC-32 of the type bytes alone, "IEND", as every PNG file ends with it
    let iend = ChunkType::from_str("IEND").unwrap();
    assert_eq!(Chunk::crc_checksum(&iend, &Vec::new()), 0xAE426082);
}

#[test]
fn flipped_checksum_bit_is_a_mismatch() {
    let good = rust_chunk().as_bytes();
    let n = good.len();
    for k in 0..4 {
        for bit in 0..8 {
            let mut bad = good.clone();
            bad[n - 4 + k] ^= 1u8 << bit;
            assert_eq!(Chunk::try_from(bad.as_slice()).unwrap_err(), MalformedChunk::ChecksumMismatch);
        }
    }
}

#[test]
fn short_input_is_rejected() {
    assert_eq!(Chunk::try_from(&[0u8; 11][..]).unwrap_err(), MalformedChunk::TooShort);
    assert_eq!(Chunk::try_from(&[][..]).unwrap_err(), MalformedChunk::TooShort);
}

#[test]
fn bad_type_in_chunk_is_rejected() {
    let mut bytes = rust_chunk().as_bytes();
    bytes[6] = b'1';
    assert!(matches!(Chunk::try_from(bytes.as_slice()).unwrap_err(), MalformedChunk::InvalidType(_)));
}

#[test]
fn announced_length_past_end_is_rejected() {
    let mut bytes = rust_chunk().as_bytes();
    bytes[3] = 100;
    assert_eq!(Chunk::try_from(bytes.as_slice()).unwrap_err(), MalformedChunk::LengthMismatch);
}

#[test]
fn checksum_is_read_from_the_last_four_bytes() {
    let mut bytes = rust_chunk().as_bytes();
    let tail: Vec<u8> = bytes[50..54].to_vec();
    bytes.splice(50..50, [1u8, 2, 3]);
    assert_eq!(&bytes[bytes.len() - 4..], tail.as_slice());
    let c = Chunk::try_from(bytes.as_slice()).unwrap();
    assert_eq!(c.length(), 42);
    assert_eq!(c.crc(), 2882656334);
}

#[test]
fn binary_payload_is_not_text() {
    let t = ChunkType::from_str("RuSt").unwrap();
    let c = Chunk::new(t, vec![0xff, 0xfe, 0x41]);
    assert!(c.data_as_string().is_err());
    let empty = Chunk::new(ChunkType::from_str("RuSt").unwrap(), Vec::new());
    assert_eq!(empty.data_as_string().unwrap(), "");
}
