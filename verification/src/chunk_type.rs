use vstd::prelude::*;

use crate::error::PngError;
use vstd::string::StringSliceAdditionalSpecFns;

verus! {

/// Whether `b` is an ASCII alphabetic byte (A-Z or a-z).
pub open spec fn is_alphabetic_byte(b: u8) -> bool {
    (0x41 <= b && b <= 0x5a) || (0x61 <= b && b <= 0x7a)
}

/// Whether `s` is a well-formed type tag: exactly 4 bytes, all alphabetic.
pub open spec fn is_well_formed_tag(s: Seq<u8>) -> bool {
    s.len() == 4 && (forall|i: int| 0 <= i < 4 ==> is_alphabetic_byte(#[trigger] s[i]))
}

/// Whether bit 5 of `b` (mask 0x20, the ASCII case bit) is clear.
pub open spec fn bit5_is_clear(b: u8) -> bool {
    b & 0x20 == 0
}

fn is_alpha(b: u8) -> (r: bool)
    ensures
        r == is_alphabetic_byte(b),
{
    (0x41 <= b && b <= 0x5a) || (0x61 <= b && b <= 0x7a)
}

/// A 4-byte chunk-type tag. Each byte's bit 5 encodes one semantic flag;
/// a tag built by `parse` or `from_bytes` holds only alphabetic bytes.
#[derive(Debug, PartialEq, Eq, Clone)]
pub struct ChunkType {
    pub bytes: [u8; 4],
}

impl ChunkType {
    /// The 4 raw tag bytes.
    pub fn bytes(&self) -> (r: [u8; 4])
        ensures
            r@ == self.bytes@,
    {
        self.bytes
    }

    fn is_zero_fifth(byte: u8) -> (r: bool)
        ensures
            r == bit5_is_clear(byte),
    {
        proof {
            assert((1u8 << 5) == 0x20u8) by (bit_vector);
        }
        let mask: u8 = 1 << 5;
        byte & mask == 0
    }

    /// The chunk is critical (rather than ancillary) when bit 5 of the first
    /// tag byte is clear.
    pub fn is_critical(&self) -> (r: bool)
        ensures
            r == bit5_is_clear(self.bytes@[0]),
    {
        Self::is_zero_fifth(self.bytes[0])
    }

    /// The chunk is public (rather than private) when bit 5 of the second tag
    /// byte is clear.
    pub fn is_public(&self) -> (r: bool)
        ensures
            r == bit5_is_clear(self.bytes@[1]),
    {
        Self::is_zero_fifth(self.bytes[1])
    }

    /// The reserved bit is valid when bit 5 of the third tag byte is clear.
    pub fn is_reserved_bit_valid(&self) -> (r: bool)
        ensures
            r == bit5_is_clear(self.bytes@[2]),
    {
        Self::is_zero_fifth(self.bytes[2])
    }

    /// The chunk is safe to copy when bit 5 of the fourth tag byte is set.
    pub fn is_safe_to_copy(&self) -> (r: bool)
        ensures
            r == !bit5_is_clear(self.bytes@[3]),
    {
        !Self::is_zero_fifth(self.bytes[3])
    }

    /// A tag is valid exactly when all 4 bytes are alphabetic and the
    /// reserved bit is valid.
    pub fn is_valid(&self) -> (r: bool)
        ensures
            r == (is_well_formed_tag(self.bytes@) && bit5_is_clear(self.bytes@[2])),
    {
        let all_alpha = is_alpha(self.bytes[0]) && is_alpha(self.bytes[1])
            && is_alpha(self.bytes[2]) && is_alpha(self.bytes[3]);
        proof {
            assert(all_alpha ==> is_well_formed_tag(self.bytes@)) by {
                if all_alpha {
                    assert(forall|i: int| 0 <= i < 4 ==> is_alphabetic_byte(
                        #[trigger] self.bytes@[i],
                    )) by {
                        assert(is_alphabetic_byte(self.bytes@[0]));
                        assert(is_alphabetic_byte(self.bytes@[1]));
                        assert(is_alphabetic_byte(self.bytes@[2]));
                        assert(is_alphabetic_byte(self.bytes@[3]));
                    }
                }
            }
        }
        all_alpha && self.is_reserved_bit_valid()
    }

    /// Builds a tag from 4 raw bytes; rejects any non-alphabetic byte.
    pub fn from_bytes(bytes: [u8; 4]) -> (r: Result<ChunkType, PngError>)
        ensures
            r matches Ok(t) ==> t.bytes@ == bytes@,
            r is Ok <==> is_well_formed_tag(bytes@),
            r is Err ==> r == Err::<ChunkType, PngError>(PngError::FormatError),
    {
        let all_alpha = is_alpha(bytes[0]) && is_alpha(bytes[1]) && is_alpha(bytes[2])
            && is_alpha(bytes[3]);
        if all_alpha {
            proof {
                assert(forall|i: int| 0 <= i < 4 ==> is_alphabetic_byte(#[trigger] bytes@[i]))
                    by {
                    assert(is_alphabetic_byte(bytes@[0]));
                    assert(is_alphabetic_byte(bytes@[1]));
                    assert(is_alphabetic_byte(bytes@[2]));
                    assert(is_alphabetic_byte(bytes@[3]));
                }
            }
            Ok(ChunkType { bytes })
        } else {
            Err(PngError::FormatError)
        }
    }

    /// Parses a tag from text: the text must be exactly 4 bytes long and every
    /// byte must be alphabetic; anything else is a format error.
    pub fn parse(s: &str) -> (r: Result<ChunkType, PngError>)
        ensures
            r matches Ok(t) ==> t.bytes@ == s.spec_bytes(),
            r is Ok <==> is_well_formed_tag(s.spec_bytes()),
            r is Err ==> r == Err::<ChunkType, PngError>(PngError::FormatError),
    {
        let b = s.as_bytes();
        if b.len() != 4 {
            return Err(PngError::FormatError);
        }
        let arr: [u8; 4] = [b[0], b[1], b[2], b[3]];
        proof {
            assert(arr@ =~= s.spec_bytes());
        }
        Self::from_bytes(arr)
    }
}

} // verus!
