use pngme::chunk::Chunk;
use pngme::chunk_type::ChunkType;
use pngme::error::PngError;
use pngme::png::Png;

fn chunk_of(tag: &str, data: &[u8]) -> Chunk {
    Chunk::new(ChunkType::parse(tag).unwrap(), data.to_vec())
}

fn sample_png() -> Png {
    Png::from_chunks(vec![
        chunk_of("FrSt", b"I am the first chunk"),
        chunk_of("miDl", b"I am another chunk"),
        chunk_of("LASt", b"I am the last chunk"),
    ])
}

#[test]
fn standard_header_value() {
    let png = Png::from_chunks(Vec::new());
    assert_eq!(*png.header(), [137, 80, 78, 71, 13, 10, 26, 10]);
}

#[test]
fn from_chunks_keeps_order() {
    let png = sample_png();
    assert_eq!(png.chunks().len(), 3);
    assert_eq!(png.chunks()[0].chunk_type().bytes(), *b"FrSt");
    assert_eq!(png.chunks()[1].chunk_type().bytes(), *b"miDl");
    assert_eq!(png.chunks()[2].chunk_type().bytes(), *b"LASt");
}

#[test]
fn find_in_empty_container_is_absent() {
    let png = Png::from_chunks(Vec::new());
    assert!(png.chunk_by_type("FrSt").is_none());
    assert!(png.chunk_by_type("IEND").is_none());
}

#[test]
fn find_after_append_returns_the_chunk() {
    let mut png = Png::from_chunks(Vec::new());
    png.append_chunk(chunk_of("teSt", b"payload"));
    let found = png.chunk_by_type("teSt").expect("chunk should be found");
    assert_eq!(found.data(), b"payload");
}

#[test]
fn find_returns_first_match() {
    let mut png = sample_png();
    png.append_chunk(chunk_of("miDl", b"a second middle"));
    let found = png.chunk_by_type("miDl").unwrap();
    assert_eq!(found.data(), b"I am another chunk");
}

#[test]
fn remove_first_of_two_keeps_the_second() {
    let mut png = Png::from_chunks(vec![
        chunk_of("teSt", b"first occurrence"),
        chunk_of("teSt", b"second occurrence"),
    ]);
    let removed = png.remove_first_chunk("teSt").unwrap();
    assert_eq!(removed.data(), b"first occurrence");
    assert_eq!(png.chunks().len(), 1);
    assert_eq!(png.chunks()[0].data(), b"second occurrence");
}

#[test]
fn remove_absent_type_is_not_found() {
    let mut png = sample_png();
    assert!(matches!(
        png.remove_first_chunk("noNe"),
        Err(PngError::NotFoundError)
    ));
    assert_eq!(png.chunks().len(), 3);
}

#[test]
fn remove_preserves_relative_order() {
    let mut png = sample_png();
    let removed = png.remove_first_chunk("miDl").unwrap();
    assert_eq!(removed.data(), b"I am another chunk");
    assert_eq!(png.chunks().len(), 2);
    assert_eq!(png.chunks()[0].chunk_type().bytes(), *b"FrSt");
    assert_eq!(png.chunks()[1].chunk_type().bytes(), *b"LASt");
}

#[test]
fn container_round_trip() {
    let png = sample_png();
    let bytes = png.as_bytes();
    let parsed = Png::parse(&bytes).unwrap();
    assert_eq!(parsed.header(), png.header());
    assert_eq!(parsed.chunks().len(), png.chunks().len());
    for (a, b) in parsed.chunks().iter().zip(png.chunks().iter()) {
        assert_eq!(a.length(), b.length());
        assert_eq!(a.chunk_type().bytes(), b.chunk_type().bytes());
        assert_eq!(a.data(), b.data());
        assert_eq!(a.crc(), b.crc());
    }
}

#[test]
fn parse_rejects_wrong_header() {
    let mut bytes = sample_png().as_bytes();
    bytes[0] = 13;
    assert!(matches!(Png::parse(&bytes), Err(PngError::FormatError)));
    assert!(matches!(Png::parse(&bytes[..5]), Err(PngError::FormatError)));
    assert!(matches!(Png::parse(&[]), Err(PngError::FormatError)));
}

#[test]
fn parse_rejects_corrupt_chunk() {
    let mut bytes = sample_png().as_bytes();
    // Flip one payload bit of the second chunk.
    bytes[8 + 12 + 20 + 8] ^= 0x10;
    assert!(matches!(
        Png::parse(&bytes),
        Err(PngError::IntegrityError { .. })
    ));
}

#[test]
fn truncation_mid_chunk_yields_format_error() {
    let png = sample_png();
    let bytes = png.as_bytes();
    let mut boundaries = vec![8];
    let mut at = 8;
    for c in png.chunks() {
        at += 12 + c.length() as usize;
        boundaries.push(at);
    }
    for n in 0..bytes.len() {
        let result = Png::parse(&bytes[..n]);
        if boundaries.contains(&n) {
            // A cut on a chunk boundary is itself a complete container.
            let p = result.unwrap();
            assert_eq!(*p.header(), *png.header());
        } else {
            assert_eq!(
                result.map(|p| p.chunks().len()),
                Err(PngError::FormatError)
            );
        }
    }
}

#[test]
fn end_to_end_scenario() {
    let mut png = Png::from_chunks(Vec::new());
    png.append_chunk(chunk_of("FrEe", b"hello"));
    let bytes = png.as_bytes();
    assert_eq!(bytes.len(), 25);

    let parsed = Png::parse(&bytes).unwrap();
    assert_eq!(parsed.chunks().len(), 1);
    let c = &parsed.chunks()[0];
    assert_eq!(c.length(), 5);
    assert_eq!(c.data(), b"hello");
    let crc = crc::Crc::<u32>::new(&crc::CRC_32_ISO_HDLC);
    assert_eq!(c.crc(), crc.checksum(b"FrEehello"));
}
