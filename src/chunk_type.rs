use vstd::prelude::*;
use vstd::string::StringSliceAdditionalSpecFns;
use vstd::utf8::{decode_utf8, valid_utf8};

use crate::error::PngError;
use crate::text::{lemma_ascii_is_utf8, utf8_to_string};

verus! {

/// An ASCII letter: `A`..=`Z` or `a`..=`z`.
pub open spec fn is_ascii_letter(b: u8) -> bool {
    (0x41 <= b <= 0x5a) || (0x61 <= b <= 0x7a)
}

/// Four bytes, each an ASCII letter.
pub open spec fn valid_tag(b: Seq<u8>) -> bool {
    &&& b.len() == 4
    &&& forall|i: int| 0 <= i < 4 ==> #[trigger] is_ascii_letter(b[i])
}

/// Bit 5 (value `0x20`) of a byte is set: for a letter, it is lower case.
pub open spec fn fifth_bit_set(b: u8) -> bool {
    b & 0x20 == 0x20
}

/// Bit 5 of `byte`, as 0 or 1.
pub fn get_fifth_bit(byte: u8) -> (r: u8)
    ensures
        r == (if fifth_bit_set(byte) { 1u8 } else { 0u8 }),
{
    let r = (byte & 0b0010_0000) >> 5;
    assert(r == (if byte & 0x20 == 0x20 { 1u8 } else { 0u8 })) by (bit_vector)
        requires
            r == (byte & 0x20u8) >> 5u8,
    ;
    r
}

fn is_letter(b: u8) -> (r: bool)
    ensures
        r == is_ascii_letter(b),
{
    (b >= 0x41 && b <= 0x5a) || (b >= 0x61 && b <= 0x7a)
}

/// Whether all four bytes are ASCII letters.
#[allow(non_snake_case)]
pub fn valid_PNG_bytes(bytes: [u8; 4]) -> (r: bool)
    ensures
        r == valid_tag(bytes@),
{
    let r = is_letter(bytes[0]) && is_letter(bytes[1]) && is_letter(bytes[2]) && is_letter(
        bytes[3],
    );
    proof {
        if r {
            assert forall|i: int| 0 <= i < 4 implies #[trigger] is_ascii_letter(bytes@[i]) by {
                assert(i == 0 || i == 1 || i == 2 || i == 3);
            }
        }
    }
    r
}

/// A four-letter chunk tag. Every value of this type holds four ASCII letters.
#[derive(Debug, Clone, Copy, PartialEq, Eq, PartialOrd, Ord)]
pub struct ChunkType {
    bytes: [u8; 4],
}

impl View for ChunkType {
    type V = Seq<u8>;

    closed spec fn view(&self) -> Seq<u8> {
        self.bytes@
    }
}

impl ChunkType {
    /// Every tag holds four ASCII letters.
    #[verifier::type_invariant]
    pub open spec fn inv(self) -> bool {
        valid_tag(self@)
    }

    /// A tag from four raw bytes; fails unless each is an ASCII letter.
    pub fn try_from(bytes: [u8; 4]) -> (r: Result<ChunkType, PngError>)
        ensures
            r is Ok <==> valid_tag(bytes@),
            r matches Ok(t) ==> t@ == bytes@,
            r matches Err(e) ==> e == PngError::InvalidTag,
    {
        if !valid_PNG_bytes(bytes) {
            return Err(PngError::InvalidTag);
        }
        Ok(ChunkType { bytes })
    }

    /// A tag from a string of four bytes; fails with `InvalidLength` on any
    /// other length, and with `InvalidTag` unless each byte is an ASCII letter.
    pub fn from_str(s: &str) -> (r: Result<ChunkType, PngError>)
        ensures
            r is Ok <==> valid_tag(s.spec_bytes()),
            r matches Ok(t) ==> t@ == s.spec_bytes(),
            s.spec_bytes().len() != 4 ==> r == Err::<ChunkType, PngError>(
                PngError::InvalidLength { len: s.spec_bytes().len() as u64 },
            ),
            s.spec_bytes().len() == 4 && !valid_tag(s.spec_bytes()) ==> r == Err::<
                ChunkType,
                PngError,
            >(PngError::InvalidTag),
    {
        let b = s.as_bytes();
        if b.len() != 4 {
            return Err(PngError::InvalidLength { len: b.len() as u64 });
        }
        let bytes: [u8; 4] = [b[0], b[1], b[2], b[3]];
        assert(bytes@ =~= b@);
        ChunkType::try_from(bytes)
    }

    /// The four raw bytes.
    pub fn bytes(&self) -> (r: [u8; 4])
        ensures
            r@ == self@,
    {
        self.bytes
    }

    /// Whether all four bytes are ASCII letters; always so for a constructed tag.
    pub fn is_valid(&self) -> (r: bool)
        ensures
            r == valid_tag(self@),
            r,
    {
        proof {
            use_type_invariant(self);
        }
        valid_PNG_bytes(self.bytes)
    }

    /// Critical: bit 5 of the first byte is clear (upper case).
    pub fn is_critical(&self) -> (r: bool)
        ensures
            r == !fifth_bit_set(self@[0]),
    {
        get_fifth_bit(self.bytes[0]) == 0
    }

    /// Public: bit 5 of the second byte is clear (upper case).
    pub fn is_public(&self) -> (r: bool)
        ensures
            r == !fifth_bit_set(self@[1]),
    {
        get_fifth_bit(self.bytes[1]) == 0
    }

    /// Reserved bit valid: bit 5 of the third byte is clear (upper case).
    pub fn is_reserved_bit_valid(&self) -> (r: bool)
        ensures
            r == !fifth_bit_set(self@[2]),
    {
        get_fifth_bit(self.bytes[2]) == 0
    }

    /// Safe to copy: bit 5 of the fourth byte is set (lower case).
    pub fn is_safe_to_copy(&self) -> (r: bool)
        ensures
            r == fifth_bit_set(self@[3]),
    {
        get_fifth_bit(self.bytes[3]) == 1
    }

    /// The tag as four characters of text.
    pub fn to_string(&self) -> (r: String)
        ensures
            valid_utf8(self@),
            r@ == decode_utf8(self@),
    {
        proof {
            use_type_invariant(self);
            assert forall|i: int| 0 <= i < self@.len() implies #[trigger] self@[i] < 0x80 by {
                assert(is_ascii_letter(self@[i]));
            }
            lemma_ascii_is_utf8(self@);
        }
        let v: Vec<u8> = vec![self.bytes[0], self.bytes[1], self.bytes[2], self.bytes[3]];
        assert(v@ =~= self@);
        match utf8_to_string(v) {
            Some(s) => s,
            None => String::new(),
        }
    }
}


impl std::str::FromStr for ChunkType {
    type Err = PngError;

    fn from_str(s: &str) -> Result<ChunkType, PngError> {
        ChunkType::from_str(s)
    }
}

} // verus!
