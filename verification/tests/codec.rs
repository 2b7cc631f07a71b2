use pngme::chunk::Chunk;
use pngme::chunk_type::ChunkType;
use pngme::error::PngError;

fn sample_chunk() -> Chunk {
    let ct = ChunkType::parse("RuSt").unwrap();
    Chunk::new(ct, b"This is where your secret message will be!".to_vec())
}

#[test]
fn chunk_type_parse_accepts_alphabetic() {
    let t = ChunkType::parse("RuSt").unwrap();
    assert_eq!(t.bytes(), [0x52, 0x75, 0x53, 0x74]);
    let t = ChunkType::parse("IHDR").unwrap();
    assert_eq!(t.bytes(), *b"IHDR");
}

#[test]
fn chunk_type_parse_rejects_bad_tags() {
    assert_eq!(ChunkType::parse("ab1d"), Err(PngError::FormatError));
    assert_eq!(ChunkType::parse("toolong"), Err(PngError::FormatError));
    assert_eq!(ChunkType::parse("ab"), Err(PngError::FormatError));
    assert_eq!(ChunkType::parse(""), Err(PngError::FormatError));
    assert_eq!(ChunkType::parse("Ru t"), Err(PngError::FormatError));
}

#[test]
fn chunk_type_from_bytes_validates() {
    assert!(ChunkType::from_bytes(*b"FrEe").is_ok());
    assert_eq!(
        ChunkType::from_bytes([0x52, 0x75, 0x31, 0x74]),
        Err(PngError::FormatError)
    );
}

#[test]
fn chunk_type_flag_bits() {
    let t = ChunkType::parse("RuSt").unwrap();
    assert!(t.is_critical());
    assert!(!t.is_public());
    assert!(t.is_reserved_bit_valid());
    assert!(t.is_safe_to_copy());
    assert!(t.is_valid());

    let lower = ChunkType::parse("rust").unwrap();
    assert!(!lower.is_critical());
    assert!(!lower.is_public());
    assert!(!lower.is_reserved_bit_valid());
    assert!(!lower.is_valid());

    let upper = ChunkType::parse("RUST").unwrap();
    assert!(upper.is_critical());
    assert!(upper.is_public());
    assert!(upper.is_reserved_bit_valid());
    assert!(!upper.is_safe_to_copy());
    assert!(upper.is_valid());
}

#[test]
fn chunk_type_reserved_bit_decides_validity() {
    // "Rust" has bit 5 of byte 2 set ('s' = 0x73); "RuSt" has it clear.
    let bad = ChunkType::parse("Rust").unwrap();
    assert!(!bad.is_reserved_bit_valid());
    assert!(!bad.is_valid());
    let good = ChunkType::parse("RuSt").unwrap();
    assert!(good.is_reserved_bit_valid());
    assert!(good.is_valid());
}

#[test]
fn chunk_new_computes_length_and_crc() {
    // CRC-32/ISO-HDLC of "123456789" is the algorithm's published check value.
    let ct = ChunkType { bytes: *b"1234" };
    let c = Chunk::new(ct, b"56789".to_vec());
    assert_eq!(c.length(), 5);
    assert_eq!(c.crc(), 0xCBF43926);
}

#[test]
fn chunk_crc_matches_known_png_value() {
    // The CRC of an empty IEND chunk in any PNG file.
    let ct = ChunkType::parse("IEND").unwrap();
    let c = Chunk::new(ct, Vec::new());
    assert_eq!(c.length(), 0);
    assert_eq!(c.crc(), 0xAE426082);
}

#[test]
fn chunk_accessors() {
    let c = sample_chunk();
    assert_eq!(c.length(), 42);
    assert_eq!(c.chunk_type().bytes(), *b"RuSt");
    assert_eq!(c.data(), b"This is where your secret message will be!");
    let crc = crc::Crc::<u32>::new(&crc::CRC_32_ISO_HDLC);
    let mut message = b"RuSt".to_vec();
    message.extend_from_slice(b"This is where your secret message will be!");
    assert_eq!(c.crc(), crc.checksum(&message));
}

#[test]
fn chunk_data_as_string() {
    let c = sample_chunk();
    assert_eq!(
        c.data_as_string().unwrap(),
        "This is where your secret message will be!"
    );
    let bad = Chunk::new(ChunkType::parse("teXt").unwrap(), vec![0xFF, 0xFE, 0x00]);
    assert_eq!(bad.data_as_string(), Err(PngError::EncodingError));
}

#[test]
fn chunk_serialize_layout() {
    let c = Chunk::new(ChunkType::parse("FrEe").unwrap(), b"hello".to_vec());
    let bytes = c.as_bytes();
    assert_eq!(bytes.len(), 17);
    assert_eq!(&bytes[0..4], &[0, 0, 0, 5]);
    assert_eq!(&bytes[4..8], b"FrEe");
    assert_eq!(&bytes[8..13], b"hello");
    let crc = c.crc();
    assert_eq!(&bytes[13..17], &crc.to_be_bytes());
}

#[test]
fn chunk_round_trip() {
    let c = sample_chunk();
    let bytes = c.as_bytes();
    let parsed = Chunk::parse(&bytes).unwrap();
    assert_eq!(parsed.length(), c.length());
    assert_eq!(parsed.chunk_type().bytes(), c.chunk_type().bytes());
    assert_eq!(parsed.data(), c.data());
    assert_eq!(parsed.crc(), c.crc());
}

#[test]
fn chunk_parse_accepts_raw_tag_bytes() {
    // Chunk parsing takes the 4 tag bytes as they stand, alphabetic or not.
    let c = Chunk::new(ChunkType { bytes: [0x00, 0x01, 0xFE, 0xFF] }, b"xy".to_vec());
    let parsed = Chunk::parse(&c.as_bytes()).unwrap();
    assert_eq!(parsed.chunk_type().bytes(), [0x00, 0x01, 0xFE, 0xFF]);
}

#[test]
fn chunk_parse_rejects_short_buffers() {
    assert!(matches!(Chunk::parse(&[]), Err(PngError::FormatError)));
    assert!(matches!(Chunk::parse(&[0; 11]), Err(PngError::FormatError)));
    // Declared length larger than what the buffer holds.
    let mut bytes = sample_chunk().as_bytes();
    bytes[3] = 0xFF;
    assert!(matches!(Chunk::parse(&bytes), Err(PngError::FormatError)));
}

#[test]
fn chunk_truncation_yields_format_error() {
    let bytes = sample_chunk().as_bytes();
    for n in 0..bytes.len() {
        assert!(matches!(Chunk::parse(&bytes[..n]), Err(PngError::FormatError)));
    }
}

#[test]
fn chunk_bit_flip_in_type_or_payload_yields_integrity_error() {
    let c = sample_chunk();
    let bytes = c.as_bytes();
    // The type and payload region spans bytes 4 .. 8 + payload length.
    for pos in 4..(8 + c.length() as usize) {
        for bit in 0..8 {
            let mut corrupt = bytes.clone();
            corrupt[pos] ^= 1 << bit;
            match Chunk::parse(&corrupt) {
                Err(PngError::IntegrityError { .. }) => {}
                other => panic!("expected integrity error, got {:?}", other),
            }
        }
    }
}

#[test]
fn chunk_bit_flip_in_checksum_yields_integrity_error() {
    let c = sample_chunk();
    let bytes = c.as_bytes();
    let crc_start = bytes.len() - 4;
    for pos in crc_start..bytes.len() {
        for bit in 0..8 {
            let mut corrupt = bytes.clone();
            corrupt[pos] ^= 1 << bit;
            match Chunk::parse(&corrupt) {
                Err(PngError::IntegrityError { expected, actual }) => {
                    assert_eq!(expected, c.crc());
                    assert_ne!(actual, c.crc());
                }
                other => panic!("expected integrity error, got {:?}", other),
            }
        }
    }
}
