use vstd::prelude::*;
use vstd::utf8::{decode_utf8, valid_utf8};

use crc::{Crc, CRC_32_ISO_HDLC};

use crate::chunk_type::{valid_tag, ChunkType};
use crate::error::PngError;
use crate::text::utf8_to_string;

verus! {

/// The CRC-32/ISO-HDLC checksum of a byte sequence.
pub uninterp spec fn crc32_of(bytes: Seq<u8>) -> u32;

/// Relies on `crc::Crc::<u32>::checksum` with the `CRC_32_ISO_HDLC` algorithm:
/// the checksum depends on the bytes alone.
#[verifier::external_body]
fn crc32_iso_hdlc(bytes: &[u8]) -> (r: u32)
    ensures
        r == crc32_of(bytes@),
{
    Crc::<u32>::new(&CRC_32_ISO_HDLC).checksum(bytes)
}

/// The four bytes of `n`, most significant first.
pub open spec fn be_bytes(n: u32) -> Seq<u8> {
    seq![(n >> 24u32) as u8, (n >> 16u32) as u8, (n >> 8u32) as u8, n as u8]
}

/// The big-endian `u32` stored in `b` at `at .. at + 4`.
pub open spec fn read_be(b: Seq<u8>, at: int) -> u32 {
    ((b[at] as u32) << 24u32) | ((b[at + 1] as u32) << 16u32) | ((b[at + 2] as u32) << 8u32) | (
    b[at + 3] as u32)
}

/// What a chunk is: its tag and its payload. Length and checksum follow from them.
pub struct ChunkModel {
    pub tag: Seq<u8>,
    pub data: Seq<u8>,
}

/// A chunk that can exist: a valid tag and a payload whose length fits in 32 bits.
pub open spec fn chunk_wf(m: ChunkModel) -> bool {
    valid_tag(m.tag) && m.data.len() <= u32::MAX
}

/// The checksum of a chunk: CRC-32 over tag followed by payload.
pub open spec fn chunk_crc(m: ChunkModel) -> u32 {
    crc32_of(m.tag + m.data)
}

/// The bytes a chunk takes when written out.
pub open spec fn chunk_size(m: ChunkModel) -> int {
    12 + m.data.len() as int
}

/// Serialized layout: length, tag, payload, checksum; integers big-endian.
pub open spec fn encode_chunk(m: ChunkModel) -> Seq<u8> {
    be_bytes(m.data.len() as u32) + m.tag + m.data + be_bytes(chunk_crc(m))
}

/// Decoding of one chunk from the start of `b`; bytes after the chunk are ignored.
#[verifier::opaque]
pub open spec fn parse_chunk(b: Seq<u8>) -> Result<ChunkModel, PngError> {
    let available = b.len() as u64;
    if b.len() < 8 {
        Err(PngError::Truncated { needed: if b.len() < 4 { 4 } else { 8 }, available })
    } else if !valid_tag(b.subrange(4, 8)) {
        Err(PngError::InvalidTag)
    } else {
        let len = read_be(b, 0) as int;
        if b.len() < len + 12 {
            Err(
                PngError::Truncated {
                    needed: (if b.len() < len + 8 { len + 8 } else { len + 12 }) as u64,
                    available,
                },
            )
        } else {
            let m = ChunkModel { tag: b.subrange(4, 8), data: b.subrange(8, 8 + len) };
            let stored = read_be(b, 8 + len);
            if stored != chunk_crc(m) {
                Err(PngError::ChecksumMismatch { stored, computed: chunk_crc(m) })
            } else {
                Ok(m)
            }
        }
    }
}

/// A decoded chunk took at least its twelve framing bytes and no more than `b` holds.
pub proof fn lemma_parse_chunk_size(b: Seq<u8>)
    ensures
        parse_chunk(b) matches Ok(m) ==> 12 <= chunk_size(m) <= b.len(),
{
    reveal(parse_chunk);
}

proof fn lemma_read_be_bytes(n: u32, b: Seq<u8>, at: int)
    requires
        0 <= at,
        at + 4 <= b.len(),
        b.subrange(at, at + 4) == be_bytes(n),
    ensures
        read_be(b, at) == n,
{
    assert(b[at] == be_bytes(n)[0]);
    assert(b[at + 1] == be_bytes(n)[1]);
    assert(b[at + 2] == be_bytes(n)[2]);
    assert(b[at + 3] == be_bytes(n)[3]);
    assert(((((n >> 24u32) as u8) as u32) << 24u32) | ((((n >> 16u32) as u8) as u32) << 16u32) | (
    (((n >> 8u32) as u8) as u32) << 8u32) | ((n as u8) as u32) == n) by (bit_vector);
}

/// A chunk's encoding, followed by any bytes, decodes to that chunk.
pub proof fn lemma_parse_encoded_chunk(m: ChunkModel, rest: Seq<u8>)
    requires
        chunk_wf(m),
    ensures
        parse_chunk(encode_chunk(m) + rest) == Ok::<ChunkModel, PngError>(m),
        encode_chunk(m).len() == chunk_size(m),
{
    reveal(parse_chunk);
    let b = encode_chunk(m) + rest;
    let len = m.data.len() as int;
    assert(b.subrange(0, 4) =~= be_bytes(m.data.len() as u32));
    lemma_read_be_bytes(m.data.len() as u32, b, 0);
    assert(b.subrange(4, 8) =~= m.tag);
    assert(b.subrange(8, 8 + len) =~= m.data);
    assert(b.subrange(8 + len, 12 + len) =~= be_bytes(chunk_crc(m)));
    lemma_read_be_bytes(chunk_crc(m), b, 8 + len);
    let p = ChunkModel { tag: b.subrange(4, 8), data: b.subrange(8, 8 + len) };
    assert(p == m);
}

/// Round trip: decoding the bytes of a valid chunk gives back that chunk.
pub proof fn lemma_chunk_round_trip(m: ChunkModel)
    requires
        chunk_wf(m),
    ensures
        parse_chunk(encode_chunk(m)) == Ok::<ChunkModel, PngError>(m),
{
    lemma_parse_encoded_chunk(m, Seq::empty());
    assert(encode_chunk(m) + Seq::<u8>::empty() =~= encode_chunk(m));
}

/// Any proper prefix of a valid chunk's bytes is rejected as truncated, never
/// read past its end; a cut inside the payload asks for the whole payload.
pub proof fn lemma_prefix_is_truncated(m: ChunkModel, k: int)
    requires
        chunk_wf(m),
        0 <= k < chunk_size(m),
    ensures
        parse_chunk(encode_chunk(m).take(k)) matches Err(PngError::Truncated { available, .. })
            && available == k,
        8 <= k < 8 + m.data.len() ==> parse_chunk(encode_chunk(m).take(k)) == Err::<
            ChunkModel,
            PngError,
        >(PngError::Truncated { needed: (8 + m.data.len()) as u64, available: k as u64 }),
{
    reveal(parse_chunk);
    let b = encode_chunk(m).take(k);
    if k >= 8 {
        assert(b.subrange(0, 4) =~= be_bytes(m.data.len() as u32));
        lemma_read_be_bytes(m.data.len() as u32, b, 0);
        assert(b.subrange(4, 8) =~= m.tag);
    }
}

/// A record whose tag or payload was altered while its stored checksum was
/// kept is rejected with `ChecksumMismatch` whenever the checksum of the
/// altered content differs from the stored one (and the tag is still letters).
pub proof fn lemma_stale_checksum_rejected(m: ChunkModel, tag: Seq<u8>, data: Seq<u8>)
    requires
        chunk_wf(m),
        valid_tag(tag),
        data.len() == m.data.len(),
        crc32_of(tag + data) != chunk_crc(m),
    ensures
        parse_chunk(be_bytes(m.data.len() as u32) + tag + data + be_bytes(chunk_crc(m)))
            == Err::<ChunkModel, PngError>(
            PngError::ChecksumMismatch { stored: chunk_crc(m), computed: crc32_of(tag + data) },
        ),
{
    reveal(parse_chunk);
    let b = be_bytes(m.data.len() as u32) + tag + data + be_bytes(chunk_crc(m));
    let len = m.data.len() as int;
    assert(b.subrange(0, 4) =~= be_bytes(m.data.len() as u32));
    lemma_read_be_bytes(m.data.len() as u32, b, 0);
    assert(b.subrange(4, 8) =~= tag);
    assert(b.subrange(8, 8 + len) =~= data);
    assert(b.subrange(8 + len, 12 + len) =~= be_bytes(chunk_crc(m)));
    lemma_read_be_bytes(chunk_crc(m), b, 8 + len);
}

fn push_be(v: &mut Vec<u8>, n: u32)
    ensures
        final(v)@ == old(v)@ + be_bytes(n),
{
    v.push((n >> 24u32) as u8);
    v.push((n >> 16u32) as u8);
    v.push((n >> 8u32) as u8);
    v.push(n as u8);
    assert(final(v)@ =~= old(v)@ + be_bytes(n));
}

fn read_be_at(b: &[u8], at: usize) -> (r: u32)
    requires
        at + 4 <= b@.len(),
    ensures
        r == read_be(b@, at as int),
{
    ((b[at] as u32) << 24u32) | ((b[at + 1] as u32) << 16u32) | ((b[at + 2] as u32) << 8u32) | (
    b[at + 3] as u32)
}

/// Appends `src[from .. to]` to `v`.
fn extend_from_range(v: &mut Vec<u8>, src: &[u8], from: usize, to: usize)
    requires
        from <= to <= src@.len(),
    ensures
        final(v)@ == old(v)@ + src@.subrange(from as int, to as int),
{
    let ghost start = v@;
    let mut i: usize = from;
    while i < to
        invariant
            from <= i <= to <= src@.len(),
            v@ == start + src@.subrange(from as int, i as int),
        decreases to - i,
    {
        v.push(src[i]);
        assert(src@.subrange(from as int, i + 1) =~= src@.subrange(from as int, i as int).push(
            src@[i as int],
        ));
        i = i + 1;
    }
}

/// CRC-32 over the tag bytes followed by the payload.
fn crc_checksum(chunk_type: &ChunkType, data: &[u8]) -> (r: u32)
    ensures
        r == crc32_of(chunk_type@ + data@),
{
    let tag = chunk_type.bytes();
    let mut v: Vec<u8> = Vec::new();
    v.push(tag[0]);
    v.push(tag[1]);
    v.push(tag[2]);
    v.push(tag[3]);
    assert(v@ =~= tag@);
    extend_from_range(&mut v, data, 0, data.len());
    assert(data@.subrange(0, data@.len() as int) =~= data@);
    crc32_iso_hdlc(v.as_slice())
}

/// One record of the container: a tag, a payload, and their length and checksum.
#[derive(Debug)]
pub struct Chunk {
    length: u32,
    chunk_type: ChunkType,
    data: Vec<u8>,
    crc: u32,
}

impl View for Chunk {
    type V = ChunkModel;

    closed spec fn view(&self) -> ChunkModel {
        ChunkModel { tag: self.chunk_type@, data: self.data@ }
    }
}

impl Chunk {
    #[verifier::type_invariant]
    spec fn inv(self) -> bool {
        &&& valid_tag(self.chunk_type@)
        &&& self.data@.len() <= u32::MAX
        &&& self.length == self.data@.len()
        &&& self.crc == chunk_crc(self@)
    }

    /// A chunk of `data` under `chunk_type`, with length and checksum computed.
    pub fn new(chunk_type: ChunkType, data: Vec<u8>) -> (r: Chunk)
        requires
            data@.len() <= u32::MAX,
        ensures
            r@.tag == chunk_type@,
            r@.data == data@,
            chunk_wf(r@),
    {
        proof {
            use_type_invariant(&chunk_type);
        }
        let length = data.len() as u32;
        let crc = crc_checksum(&chunk_type, data.as_slice());
        Chunk { length, chunk_type, data, crc }
    }

    /// Decodes one chunk from the start of `value`, verifying its checksum.
    /// On success the chunk took `12 + length` bytes of `value`.
    pub fn try_from(value: &[u8]) -> (r: Result<Chunk, PngError>)
        ensures
            match parse_chunk(value@) {
                Ok(m) => r matches Ok(c) && c@ == m,
                Err(e) => r == Err::<Chunk, PngError>(e),
            },
            r matches Ok(c) ==> chunk_wf(c@) && chunk_size(c@) <= value@.len(),
    {
        proof {
            reveal(parse_chunk);
        }
        let available = value.len() as u64;
        if value.len() < 8 {
            let needed: u64 = if value.len() < 4 { 4 } else { 8 };
            return Err(PngError::Truncated { needed, available });
        }
        let tag: [u8; 4] = [value[4], value[5], value[6], value[7]];
        assert(tag@ =~= value@.subrange(4, 8));
        let chunk_type = match ChunkType::try_from(tag) {
            Ok(t) => t,
            Err(e) => return Err(e),
        };
        let length = read_be_at(value, 0);
        if available < length as u64 + 12 {
            let needed: u64 = if available < length as u64 + 8 { length as u64 + 8 } else { length as u64 + 12 };
            return Err(PngError::Truncated { needed, available });
        }
        let end = 8 + length as usize;
        let mut data: Vec<u8> = Vec::new();
        extend_from_range(&mut data, value, 8, end);
        assert(data@ =~= value@.subrange(8, end as int));
        let stored = read_be_at(value, end);
        let computed = crc_checksum(&chunk_type, data.as_slice());
        if stored != computed {
            return Err(PngError::ChecksumMismatch { stored, computed });
        }
        Ok(Chunk { length, chunk_type, data, crc: stored })
    }

    /// The payload length.
    pub fn length(&self) -> (r: u32)
        ensures
            r == self@.data.len(),
    {
        proof {
            use_type_invariant(self);
        }
        self.length
    }

    /// The tag.
    pub fn chunk_type(&self) -> (r: &ChunkType)
        ensures
            r@ == self@.tag,
    {
        &self.chunk_type
    }

    /// The payload.
    pub fn data(&self) -> (r: &[u8])
        ensures
            r@ == self@.data,
    {
        self.data.as_slice()
    }

    /// The checksum: CRC-32 over tag and payload.
    pub fn crc(&self) -> (r: u32)
        ensures
            r == chunk_crc(self@),
    {
        proof {
            use_type_invariant(self);
        }
        self.crc
    }

    /// The payload read as UTF-8 text; fails with `InvalidText` if it is not.
    pub fn data_as_string(&self) -> (r: Result<String, PngError>)
        ensures
            r is Ok <==> valid_utf8(self@.data),
            r matches Ok(s) ==> s@ == decode_utf8(self@.data),
            r matches Err(e) ==> e == PngError::InvalidText,
    {
        match utf8_to_string(self.data.clone()) {
            Some(s) => Ok(s),
            None => Err(PngError::InvalidText),
        }
    }

    /// The chunk's bytes: length, tag, payload and checksum, integers big-endian.
    pub fn as_bytes(&self) -> (r: Vec<u8>)
        ensures
            r@ == encode_chunk(self@),
    {
        proof {
            use_type_invariant(self);
        }
        let mut v: Vec<u8> = Vec::new();
        push_be(&mut v, self.length);
        let tag = self.chunk_type.bytes();
        v.push(tag[0]);
        v.push(tag[1]);
        v.push(tag[2]);
        v.push(tag[3]);
        extend_from_range(&mut v, self.data.as_slice(), 0, self.data.len());
        push_be(&mut v, self.crc);
        assert(self.data@.subrange(0, self.data@.len() as int) =~= self.data@);
        assert(v@ =~= encode_chunk(self@));
        v
    }
}


} // verus!
