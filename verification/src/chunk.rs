use vstd::prelude::*;

use vstd::string::StringSliceAdditionalSpecFns;
use vstd::utf8::{encode_utf8, valid_utf8};

use crate::bytes::{be_bytes, be_val, lemma_be_val_of_be_bytes, push_be_u32, read_be_u32};
use crate::chunk_type::ChunkType;
use crate::error::PngError;

verus! {

/// The checksum that the CRC-32/ISO-HDLC algorithm assigns to a byte
/// sequence; a pure function of the bytes alone.
pub uninterp spec fn crc32_of(bytes: Seq<u8>) -> u32;

/// Relies on crc::Crc::<u32>::checksum with the CRC_32_ISO_HDLC algorithm:
/// a table-driven computation whose result depends on the input bytes alone.
#[verifier::external_body]
fn crc32_checksum(bytes: &Vec<u8>) -> (r: u32)
    ensures
        r == crc32_of(bytes@),
{
    let algorithm = crc::Crc::<u32>::new(&crc::CRC_32_ISO_HDLC);
    algorithm.checksum(bytes.as_slice())
}

/// Relies on String::from_utf8: it returns Ok exactly when the bytes are
/// valid UTF-8, and the string then holds exactly the input bytes.
#[verifier::external_body]
fn bytes_to_string(bytes: &Vec<u8>) -> (r: Option<String>)
    ensures
        r is Some <==> valid_utf8(bytes@),
        r matches Some(s) ==> encode_utf8(s@) == bytes@,
{
    String::from_utf8(bytes.clone()).ok()
}

/// The mathematical content of a chunk: its 4 tag bytes and its payload.
pub ghost struct ChunkModel {
    pub type_tag: Seq<u8>,
    pub data: Seq<u8>,
}

impl ChunkModel {
    /// A model is well formed when the tag is 4 bytes long and the payload
    /// length fits the 32-bit length field.
    pub open spec fn wf(self) -> bool {
        self.type_tag.len() == 4 && self.data.len() <= u32::MAX
    }

    /// The checksum that protects the chunk: CRC-32 over tag then payload.
    pub open spec fn crc(self) -> u32 {
        crc32_of(self.type_tag + self.data)
    }

    /// The serialized image: big-endian length, tag, payload, big-endian CRC.
    pub open spec fn spec_bytes(self) -> Seq<u8> {
        be_bytes(self.data.len() as u32) + self.type_tag + self.data + be_bytes(self.crc())
    }
}

/// What parsing a byte buffer as one chunk yields; the spec-level counterpart
/// of Chunk::parse. Bytes after the declared span are ignored.
pub open spec fn spec_parse_chunk(b: Seq<u8>) -> Result<ChunkModel, PngError> {
    if b.len() < 12 {
        Err(PngError::FormatError)
    } else {
        let l = be_val(b.subrange(0, 4));
        if b.len() < 12 + l {
            Err(PngError::FormatError)
        } else {
            let expected = crc32_of(b.subrange(4, 8 + l));
            let actual = be_val(b.subrange(8 + l, 12 + l));
            if actual != expected {
                Err(PngError::IntegrityError { expected, actual: actual as u32 })
            } else {
                Ok(ChunkModel { type_tag: b.subrange(4, 8), data: b.subrange(8, 8 + l) })
            }
        }
    }
}

/// One length-prefixed, CRC-protected record: a type tag plus opaque payload.
#[derive(Debug)]
pub struct Chunk {
    pub length: u32,
    pub chunk_type: ChunkType,
    pub chunk_data: Vec<u8>,
    pub crc: u32,
}

impl View for Chunk {
    type V = ChunkModel;

    open spec fn view(&self) -> ChunkModel {
        ChunkModel { type_tag: self.chunk_type.bytes@, data: self.chunk_data@ }
    }
}

impl Chunk {
    /// The chunk invariant: the length field counts the payload bytes and the
    /// checksum field is the CRC-32 over tag then payload. `new` and `parse`
    /// both establish it.
    pub open spec fn wf(self) -> bool {
        self.length == self.chunk_data@.len() && self.crc == self@.crc()
    }

    fn calculate_crc(chunk_type: &ChunkType, chunk_data: &Vec<u8>) -> (r: u32)
        ensures
            r == crc32_of(chunk_type.bytes@ + chunk_data@),
    {
        let mut message: Vec<u8> = Vec::new();
        message.push(chunk_type.bytes[0]);
        message.push(chunk_type.bytes[1]);
        message.push(chunk_type.bytes[2]);
        message.push(chunk_type.bytes[3]);
        proof {
            assert(message@ =~= chunk_type.bytes@ + chunk_data@.subrange(0, 0));
        }
        let mut i: usize = 0;
        while i < chunk_data.len()
            invariant
                i <= chunk_data@.len(),
                message@ == chunk_type.bytes@ + chunk_data@.subrange(0, i as int),
            decreases chunk_data@.len() - i,
        {
            message.push(chunk_data[i]);
            i = i + 1;
            proof {
                assert(message@ =~= chunk_type.bytes@ + chunk_data@.subrange(0, i as int));
            }
        }
        proof {
            assert(chunk_data@.subrange(0, chunk_data@.len() as int) =~= chunk_data@);
        }
        crc32_checksum(&message)
    }

    /// Builds a chunk from a type and payload; the length and checksum fields
    /// are computed from the parts, never trusted from outside.
    pub fn new(chunk_type: ChunkType, data: Vec<u8>) -> (r: Chunk)
        requires
            data@.len() <= u32::MAX,
        ensures
            r.wf(),
            r@ == (ChunkModel { type_tag: chunk_type.bytes@, data: data@ }),
    {
        let checksum = Self::calculate_crc(&chunk_type, &data);
        let length = data.len() as u32;
        Chunk { length, chunk_type, chunk_data: data, crc: checksum }
    }

    /// The declared payload length in bytes.
    pub fn length(&self) -> (r: u32)
        ensures
            r == self.length,
            self.wf() ==> r == self.chunk_data@.len(),
    {
        self.length
    }

    /// The chunk's type tag.
    pub fn chunk_type(&self) -> (r: &ChunkType)
        ensures
            r == &self.chunk_type,
    {
        &self.chunk_type
    }

    /// The raw payload bytes.
    pub fn data(&self) -> (r: &[u8])
        ensures
            r@ == self.chunk_data@,
    {
        self.chunk_data.as_slice()
    }

    /// The stored checksum.
    pub fn crc(&self) -> (r: u32)
        ensures
            r == self.crc,
    {
        self.crc
    }

    /// Decodes the payload as UTF-8 text; a payload that is not valid UTF-8
    /// is an encoding error.
    pub fn data_as_string(&self) -> (r: Result<String, PngError>)
        ensures
            r matches Ok(s) ==> encode_utf8(s@) == self.chunk_data@,
            r is Ok <==> valid_utf8(self.chunk_data@),
            r is Err ==> r == Err::<String, PngError>(PngError::EncodingError),
    {
        match bytes_to_string(&self.chunk_data) {
            Some(s) => Ok(s),
            None => Err(PngError::EncodingError),
        }
    }

    /// The exact byte image that `as_bytes` emits, over the raw fields.
    pub open spec fn spec_serialized(self) -> Seq<u8> {
        be_bytes(self.length) + self.chunk_type.bytes@ + self.chunk_data@ + be_bytes(self.crc)
    }

    /// For a well-formed chunk the emitted bytes are its model's bytes.
    pub proof fn lemma_serialized_is_model_bytes(self)
        requires
            self.wf(),
        ensures
            self.spec_serialized() == self@.spec_bytes(),
            self@.wf(),
    {
        assert(self.length == self@.data.len() as u32);
    }

    /// Serializes the chunk: big-endian length, the 4 tag bytes, the payload,
    /// then the big-endian checksum.
    pub fn as_bytes(&self) -> (r: Vec<u8>)
        ensures
            r@ == self.spec_serialized(),
    {
        let mut out: Vec<u8> = Vec::new();
        push_be_u32(&mut out, self.length);
        out.push(self.chunk_type.bytes[0]);
        out.push(self.chunk_type.bytes[1]);
        out.push(self.chunk_type.bytes[2]);
        out.push(self.chunk_type.bytes[3]);
        proof {
            assert(out@ =~= be_bytes(self.length) + self.chunk_type.bytes@
                + self.chunk_data@.subrange(0, 0));
        }
        let mut i: usize = 0;
        while i < self.chunk_data.len()
            invariant
                i <= self.chunk_data@.len(),
                out@ == be_bytes(self.length) + self.chunk_type.bytes@
                    + self.chunk_data@.subrange(0, i as int),
            decreases self.chunk_data@.len() - i,
        {
            out.push(self.chunk_data[i]);
            i = i + 1;
            proof {
                assert(out@ =~= be_bytes(self.length) + self.chunk_type.bytes@
                    + self.chunk_data@.subrange(0, i as int));
            }
        }
        push_be_u32(&mut out, self.crc);
        proof {
            assert(self.chunk_data@.subrange(0, self.chunk_data@.len() as int)
                =~= self.chunk_data@);
            assert(out@ =~= self.spec_serialized());
        }
        out
    }

    /// Parses one chunk from a buffer laid out as length, tag, payload,
    /// checksum. The buffer must hold the whole declared span; the checksum
    /// is recomputed over the tag and payload bytes and must equal the
    /// embedded one. The tag bytes are taken as they stand: alphabetic
    /// validity is ChunkType's concern, and accepting raw tags keeps
    /// parse/serialize round trips byte-exact on non-standard inputs.
    pub fn parse(bytes: &[u8]) -> (r: Result<Chunk, PngError>)
        ensures
            r matches Ok(c) ==> c.wf() && spec_parse_chunk(bytes@) == Ok::<ChunkModel,
                PngError,
            >(c@),
            r matches Err(e) ==> spec_parse_chunk(bytes@) == Err::<ChunkModel, PngError>(e),
    {
        if bytes.len() < 12 {
            return Err(PngError::FormatError);
        }
        let length = read_be_u32(bytes, 0);
        let l = length as usize;
        if bytes.len() - 12 < l {
            return Err(PngError::FormatError);
        }
        let chunk_type = ChunkType { bytes: [bytes[4], bytes[5], bytes[6], bytes[7]] };
        proof {
            assert(chunk_type.bytes@ =~= bytes@.subrange(4, 8));
        }
        let mut chunk_data: Vec<u8> = Vec::new();
        let mut i: usize = 0;
        while i < l
            invariant
                i <= l,
                l + 12 <= usize::MAX,
                l + 12 <= bytes@.len(),
                chunk_data@ == bytes@.subrange(8, 8 + i as int),
            decreases l - i,
        {
            chunk_data.push(bytes[8 + i]);
            i = i + 1;
            proof {
                assert(chunk_data@ =~= bytes@.subrange(8, 8 + i as int));
            }
        }
        let crc_embedded = read_be_u32(bytes, 8 + l);
        let actual_crc = Self::calculate_crc(&chunk_type, &chunk_data);
        proof {
            assert(chunk_type.bytes@ + chunk_data@ =~= bytes@.subrange(4, 8 + l as int));
            assert(bytes@.subrange(8 + l as int, 8 + l as int + 4) =~= bytes@.subrange(
                8 + l as int,
                12 + l as int,
            ));
        }
        if actual_crc != crc_embedded {
            return Err(PngError::IntegrityError { expected: actual_crc, actual: crc_embedded });
        }
        Ok(Chunk { length, chunk_type, chunk_data, crc: crc_embedded })
    }
}

/// Law: parsing the serialized form of a well-formed chunk succeeds and
/// recovers exactly the same tag and payload.
pub proof fn lemma_chunk_round_trip(m: ChunkModel)
    requires
        m.wf(),
    ensures
        spec_parse_chunk(m.spec_bytes()) == Ok::<ChunkModel, PngError>(m),
{
    let b = m.spec_bytes();
    lemma_be_val_of_be_bytes(m.data.len() as u32);
    lemma_be_val_of_be_bytes(m.crc());
    assert(b.subrange(0, 4) =~= be_bytes(m.data.len() as u32));
    let l = be_val(b.subrange(0, 4));
    assert(l == m.data.len());
    assert(b.subrange(4, 8) =~= m.type_tag);
    assert(b.subrange(8, 8 + l) =~= m.data);
    assert(b.subrange(4, 8 + l) =~= m.type_tag + m.data);
    assert(b.subrange(8 + l, 12 + l) =~= be_bytes(m.crc()));
    assert(spec_parse_chunk(b) matches Ok(p) && p == m);
}

/// Law: for a well-formed chunk, parsing the exact bytes that `as_bytes`
/// emits recovers the same tag and payload.
pub proof fn lemma_chunk_serialize_then_parse(c: Chunk)
    requires
        c.wf(),
    ensures
        spec_parse_chunk(c.spec_serialized()) == Ok::<ChunkModel, PngError>(c@),
{
    c.lemma_serialized_is_model_bytes();
    lemma_chunk_round_trip(c@);
}

/// Law: a serialized chunk whose trailing checksum field carries any value
/// other than the true checksum is rejected with an integrity error that
/// reports both values. In particular, flipping any bit of the checksum field
/// of a well-formed serialized chunk makes parsing fail.
pub proof fn lemma_crc_mismatch_rejected(m: ChunkModel, x: u32)
    requires
        m.wf(),
        x != m.crc(),
    ensures
        spec_parse_chunk(be_bytes(m.data.len() as u32) + m.type_tag + m.data + be_bytes(x))
            == Err::<ChunkModel, PngError>(
            PngError::IntegrityError { expected: m.crc(), actual: x },
        ),
{
    let b = be_bytes(m.data.len() as u32) + m.type_tag + m.data + be_bytes(x);
    lemma_be_val_of_be_bytes(m.data.len() as u32);
    lemma_be_val_of_be_bytes(x);
    assert(b.subrange(0, 4) =~= be_bytes(m.data.len() as u32));
    let l = be_val(b.subrange(0, 4));
    assert(l == m.data.len());
    assert(b.subrange(4, 8 + l) =~= m.type_tag + m.data);
    assert(b.subrange(8 + l, 12 + l) =~= be_bytes(x));
}

/// Law: parsing any strict prefix of a serialized well-formed chunk fails
/// with a format error; parse being verified, it never reads out of bounds.
pub proof fn lemma_chunk_truncation_rejected(m: ChunkModel, n: int)
    requires
        m.wf(),
        0 <= n < m.spec_bytes().len(),
    ensures
        spec_parse_chunk(m.spec_bytes().subrange(0, n)) == Err::<ChunkModel, PngError>(
            PngError::FormatError,
        ),
{
    let b = m.spec_bytes();
    let p = b.subrange(0, n);
    if n >= 12 {
        lemma_be_val_of_be_bytes(m.data.len() as u32);
        assert(p.subrange(0, 4) =~= be_bytes(m.data.len() as u32));
        assert(p.len() < 12 + be_val(p.subrange(0, 4)));
    }
}

} // verus!
