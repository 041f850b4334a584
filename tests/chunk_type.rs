use pngme::chunk_type::ChunkType;
use std::str::FromStr;

#[test]
pub fn test_chunk_type_from_bytes() {
    let expected = [82, 117, 83, 116];
    let actual = ChunkType::try_from([82, 117, 83, 116]).unwrap();

    assert_eq!(expected, actual.bytes());
}

#[test]
pub fn test_chunk_type_from_str() {
    let expected = ChunkType::try_from([82, 117, 83, 116]).unwrap();
    let actual = ChunkType::from_str("RuSt").unwrap();
    assert_eq!(expected, actual);
}

#[test]
pub fn test_chunk_type_is_critical() {
    let chunk = ChunkType::from_str("RuSt").unwrap();
    assert!(chunk.is_critical());
}

#[test]
pub fn test_chunk_type_is_not_critical() {
    let chunk = ChunkType::from_str("ruSt").unwrap();
    assert!(!chunk.is_critical());
}

#[test]
pub fn test_chunk_type_is_public() {
    let chunk = ChunkType::from_str("RUSt").unwrap();
    assert!(chunk.is_public());
}

#[test]
pub fn test_chunk_type_is_not_public() {
    let chunk = ChunkType::from_str("RuSt").unwrap();
    assert!(!chunk.is_public());
}

#[test]
pub fn test_chunk_type_is_reserved_bit_valid() {
    let chunk = ChunkType::from_str("RuSt").unwrap();
    assert!(chunk.is_reserved_bit_valid());
}

#[test]
pub fn test_chunk_type_is_reserved_bit_invalid() {
    let chunk = ChunkType::from_str("Rust").unwrap();
    assert!(!chunk.is_reserved_bit_valid());
}

#[test]
pub fn test_chunk_type_is_safe_to_copy() {
    let chunk = ChunkType::from_str("RuSt").unwrap();
    assert!(chunk.is_safe_to_copy());
}

#[test]
pub fn test_chunk_type_is_unsafe_to_copy() {
    let chunk = ChunkType::from_str("RuST").unwrap();
    assert!(!chunk.is_safe_to_copy());
}

#[test]
pub fn test_valid_chunk_is_valid() {
    let chunk = ChunkType::from_str("RuSt").unwrap();
    assert!(chunk.is_valid());
}

#[test]
pub fn test_invalid_chunk_is_valid() {
    let chunk = ChunkType::from_str("Rust").unwrap();
    assert!(!chunk.is_valid());

    let chunk = ChunkType::from_str("Ru1t");
    assert!(chunk.is_err());
}

#[test]
pub fn test_chunk_type_string() {
    let chunk = ChunkType::from_str("RuSt").unwrap();
    assert_eq!(&chunk.to_string(), "RuSt");
}

#[test]
pub fn test_chunk_type_trait_impls() {
    let chunk_type_1: ChunkType = ChunkType::try_from([82, 117, 83, 116]).unwrap();
    let chunk_type_2: ChunkType = FromStr::from_str("RuSt").unwrap();
    let _chunk_string = format!("{}", chunk_type_1.to_string());
    let _are_chunks_equal = chunk_type_1 == chunk_type_2;
}

#[test]
fn non_letter_bytes_are_rejected() {
    for bad in [[82u8, 117, 49, 116], [0, 65, 65, 65], [65, 65, 65, 91], [64, 97, 97, 97], [97, 97, 123, 97], [200, 65, 65, 65]] {
        assert!(ChunkType::try_from(bad).is_err());
    }
    let err = ChunkType::try_from([82, 117, 49, 116]).unwrap_err();
    assert_eq!(err.text(), "Ru1t");
}

#[test]
fn text_of_wrong_length_is_rejected() {
    assert_eq!(ChunkType::from_str("RuStX").unwrap_err().text(), "RuStX");
    assert!(ChunkType::from_str("RuS").is_err());
    assert!(ChunkType::from_str("").is_err());
    // four characters, but more than four bytes
    assert!(ChunkType::from_str("Ruéz").is_err());
}

#[test]
fn validity_follows_third_letter_only() {
    for (text, valid) in [("RuSt", true), ("ruSt", true), ("RUST", true), ("rusT", false), ("RUsT", false), ("abCd", true)] {
        let t = ChunkType::from_str(text).unwrap();
        assert_eq!(t.is_valid(), valid);
        assert_eq!(t.is_reserved_bit_valid(), valid);
    }
}

#[test]
fn iend_is_recognised() {
    assert!(ChunkType::from_str("IEND").unwrap().is_iend());
    assert!(!ChunkType::from_str("IENd").unwrap().is_iend());
    assert!(!ChunkType::from_str("RuSt").unwrap().is_iend());
}
