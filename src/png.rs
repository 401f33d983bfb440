use vstd::prelude::*;
use vstd::string::StringSliceAdditionalSpecFns;
use vstd::utf8::{decode_utf8, valid_utf8};

use crate::chunk::{
    chunk_size, chunk_wf, encode_chunk, lemma_parse_chunk_size, lemma_parse_encoded_chunk,
    lemma_prefix_is_truncated, parse_chunk, Chunk, ChunkModel,
};
use crate::chunk_type::ChunkType;
use crate::error::PngError;
use crate::text::append_text;

verus! {

/// The eight magic bytes that open every container.
pub open spec fn png_signature() -> Seq<u8> {
    seq![137u8, 80u8, 78u8, 71u8, 13u8, 10u8, 26u8, 10u8]
}

/// The chunks' bytes, back to back, in order.
pub open spec fn encode_chunks(cs: Seq<ChunkModel>) -> Seq<u8>
    decreases cs.len(),
{
    if cs.len() == 0 {
        Seq::empty()
    } else {
        encode_chunks(cs.drop_last()) + encode_chunk(cs.last())
    }
}

/// The container's bytes: signature, then each chunk.
pub open spec fn encode_png(cs: Seq<ChunkModel>) -> Seq<u8> {
    png_signature() + encode_chunks(cs)
}

/// Decoding of back-to-back chunks until the bytes run out; the first
/// failing chunk decides the error.
pub open spec fn parse_chunks(b: Seq<u8>) -> Result<Seq<ChunkModel>, PngError>
    decreases b.len(),
    via parse_chunks_decreases
{
    if b.len() == 0 {
        Ok(Seq::empty())
    } else {
        match parse_chunk(b) {
            Err(e) => Err(e),
            Ok(m) => match parse_chunks(b.subrange(chunk_size(m), b.len() as int)) {
                Err(e) => Err(e),
                Ok(rest) => Ok(seq![m] + rest),
            },
        }
    }
}

#[via_fn]
proof fn parse_chunks_decreases(b: Seq<u8>) {
    lemma_parse_chunk_size(b);
}

/// Prepends `acc` to a successful decoding; errors pass through.
pub open spec fn after(acc: Seq<ChunkModel>, r: Result<Seq<ChunkModel>, PngError>) -> Result<
    Seq<ChunkModel>,
    PngError,
> {
    match r {
        Ok(rest) => Ok(acc + rest),
        Err(e) => Err(e),
    }
}

/// Decoding of a whole container: the signature, then its chunks.
pub open spec fn parse_png(b: Seq<u8>) -> Result<Seq<ChunkModel>, PngError> {
    if b.len() < 8 || b.subrange(0, 8) != png_signature() {
        Err(PngError::InvalidSignature)
    } else {
        parse_chunks(b.subrange(8, b.len() as int))
    }
}

/// The position of the first chunk tagged `name`, if any.
pub open spec fn first_index(cs: Seq<ChunkModel>, name: Seq<u8>) -> Option<int>
    decreases cs.len(),
{
    if cs.len() == 0 {
        None
    } else {
        match first_index(cs.drop_last(), name) {
            Some(i) => Some(i),
            None => if cs.last().tag == name {
                Some(cs.len() - 1)
            } else {
                None
            },
        }
    }
}

/// The first chunk tagged `name`, if any.
pub open spec fn lookup(cs: Seq<ChunkModel>, name: Seq<u8>) -> Option<ChunkModel> {
    match first_index(cs, name) {
        Some(i) => Some(cs[i]),
        None => None,
    }
}

/// Removal of the first chunk tagged `name`: the remaining chunks in order and
/// the removed one, or `ChunkNotFound`.
pub open spec fn remove_first(cs: Seq<ChunkModel>, name: Seq<u8>) -> Result<
    (Seq<ChunkModel>, ChunkModel),
    PngError,
> {
    match first_index(cs, name) {
        Some(i) => Ok((cs.remove(i), cs[i])),
        None => Err(PngError::ChunkNotFound),
    }
}

/// Every payload is valid UTF-8.
pub open spec fn all_text(cs: Seq<ChunkModel>) -> bool {
    forall|i: int| 0 <= i < cs.len() ==> valid_utf8(#[trigger] cs[i].data)
}

/// The payloads read as text, concatenated in order.
pub open spec fn concat_text(cs: Seq<ChunkModel>) -> Seq<char>
    decreases cs.len(),
{
    if cs.len() == 0 {
        Seq::empty()
    } else {
        concat_text(cs.drop_last()) + decode_utf8(cs.last().data)
    }
}

proof fn lemma_first_index_bounds(cs: Seq<ChunkModel>, name: Seq<u8>)
    ensures
        first_index(cs, name) matches Some(i) ==> 0 <= i < cs.len() && cs[i].tag == name,
        first_index(cs, name) is None ==> forall|j: int|
            0 <= j < cs.len() ==> #[trigger] cs[j].tag != name,
    decreases cs.len(),
{
    if cs.len() > 0 {
        lemma_first_index_bounds(cs.drop_last(), name);
        if first_index(cs.drop_last(), name) is None {
            assert forall|j: int| 0 <= j < cs.len() - 1 implies #[trigger] cs[j].tag != name by {
                assert(cs.drop_last()[j] == cs[j]);
            }
        }
    }
}

proof fn lemma_encode_chunks_front(cs: Seq<ChunkModel>)
    requires
        cs.len() > 0,
    ensures
        encode_chunks(cs) == encode_chunk(cs[0]) + encode_chunks(cs.drop_first()),
    decreases cs.len(),
{
    if cs.len() == 1 {
        assert(cs.drop_last() =~= Seq::<ChunkModel>::empty());
        assert(cs.drop_first() =~= Seq::<ChunkModel>::empty());
        assert(encode_chunks(cs.drop_first()) =~= Seq::<u8>::empty());
        assert(encode_chunks(cs) =~= encode_chunk(cs[0]) + encode_chunks(cs.drop_first()));
    } else {
        lemma_encode_chunks_front(cs.drop_last());
        assert(cs.drop_last().drop_first() =~= cs.drop_first().drop_last());
        assert(cs.drop_first().last() == cs.last());
        assert(encode_chunks(cs) =~= encode_chunk(cs[0]) + encode_chunks(cs.drop_first()));
    }
}

proof fn lemma_parse_encoded_chunks(cs: Seq<ChunkModel>, tail: Seq<u8>)
    requires
        forall|i: int| 0 <= i < cs.len() ==> chunk_wf(#[trigger] cs[i]),
    ensures
        parse_chunks(encode_chunks(cs) + tail) == after(cs, parse_chunks(tail)),
    decreases cs.len(),
{
    if cs.len() == 0 {
        assert(encode_chunks(cs) + tail =~= tail);
        match parse_chunks(tail) {
            Ok(t) => assert(cs + t =~= t),
            Err(_) => {},
        }
    } else {
        let rest = cs.drop_first();
        assert forall|i: int| 0 <= i < rest.len() implies chunk_wf(#[trigger] rest[i]) by {
            assert(rest[i] == cs[i + 1]);
        }
        let m = cs[0];
        let b = encode_chunks(cs) + tail;
        let after_m = encode_chunks(rest) + tail;
        lemma_encode_chunks_front(cs);
        assert(b =~= encode_chunk(m) + after_m);
        assert(chunk_wf(m));
        lemma_parse_encoded_chunk(m, after_m);
        assert(parse_chunk(b) == Ok::<ChunkModel, PngError>(m));
        assert(b.len() >= chunk_size(m) > 0);
        assert(b.subrange(chunk_size(m), b.len() as int) =~= after_m);
        lemma_parse_encoded_chunks(rest, tail);
        match parse_chunks(tail) {
            Ok(t) => assert(seq![m] + (rest + t) =~= cs + t),
            Err(_) => {},
        }
    }
}

/// Round trip: decoding the bytes of a container of valid chunks gives back
/// the same chunks in the same order (the signature is checked on the way).
pub proof fn lemma_png_round_trip(cs: Seq<ChunkModel>)
    requires
        forall|i: int| 0 <= i < cs.len() ==> chunk_wf(#[trigger] cs[i]),
    ensures
        parse_png(encode_png(cs)) == Ok::<Seq<ChunkModel>, PngError>(cs),
{
    let b = encode_png(cs);
    assert(b.subrange(0, 8) =~= png_signature());
    assert(b.subrange(8, b.len() as int) =~= encode_chunks(cs) + Seq::<u8>::empty());
    lemma_parse_encoded_chunks(cs, Seq::empty());
    assert(cs + Seq::<ChunkModel>::empty() =~= cs);
}

/// A buffer that ends inside the payload of its last chunk is rejected as
/// truncated, asking for that chunk's whole payload.
pub proof fn lemma_png_cut_in_payload(cs: Seq<ChunkModel>, m: ChunkModel, k: int)
    requires
        forall|i: int| 0 <= i < cs.len() ==> chunk_wf(#[trigger] cs[i]),
        chunk_wf(m),
        8 <= k < 8 + m.data.len(),
    ensures
        parse_png(encode_png(cs) + encode_chunk(m).take(k)) == Err::<Seq<ChunkModel>, PngError>(
            PngError::Truncated { needed: (8 + m.data.len()) as u64, available: k as u64 },
        ),
{
    let cut = encode_chunk(m).take(k);
    let b = encode_png(cs) + cut;
    assert(b.subrange(0, 8) =~= png_signature());
    assert(b.subrange(8, b.len() as int) =~= encode_chunks(cs) + cut);
    lemma_parse_encoded_chunks(cs, cut);
    lemma_prefix_is_truncated(m, k);
    assert(cut.len() > 0);
}

/// A buffer that does not open with the signature is rejected with
/// `InvalidSignature`, whatever follows.
pub proof fn lemma_signature_checked_first(b: Seq<u8>)
    requires
        b.len() < 8 || b.subrange(0, 8) != png_signature(),
    ensures
        parse_png(b) == Err::<Seq<ChunkModel>, PngError>(PngError::InvalidSignature),
{
}

/// After appending a chunk whose tag no chunk had, looking that tag up finds
/// it, and removing it gives back the chunk and the earlier sequence, in which
/// the tag is then absent.
pub proof fn lemma_append_lookup_remove(cs: Seq<ChunkModel>, c: ChunkModel)
    requires
        lookup(cs, c.tag) is None,
    ensures
        lookup(cs.push(c), c.tag) == Some(c),
        remove_first(cs.push(c), c.tag) == Ok::<(Seq<ChunkModel>, ChunkModel), PngError>((cs, c)),
        lookup(remove_first(cs.push(c), c.tag)->Ok_0.0, c.tag) is None,
{
    let s = cs.push(c);
    assert(s.drop_last() =~= cs);
    assert(s.remove(cs.len() as int) =~= cs);
}

/// Removing a tag that no chunk carries fails with `ChunkNotFound`.
pub proof fn lemma_remove_absent(cs: Seq<ChunkModel>, name: Seq<u8>)
    requires
        lookup(cs, name) is None,
    ensures
        remove_first(cs, name) == Err::<(Seq<ChunkModel>, ChunkModel), PngError>(
            PngError::ChunkNotFound,
        ),
{
}

/// Whether the tag's bytes are exactly `name`.
fn tag_is(t: &ChunkType, name: &[u8]) -> (r: bool)
    ensures
        r == (t@ == name@),
{
    let b = t.bytes();
    if name.len() != 4 {
        return false;
    }
    let r = b[0] == name[0] && b[1] == name[1] && b[2] == name[2] && b[3] == name[3];
    if r {
        assert(t@ =~= name@);
    }
    r
}

/// A container: the fixed signature followed by an ordered sequence of chunks.
#[derive(Debug)]
pub struct Png {
    chunks: Vec<Chunk>,
}

impl View for Png {
    type V = Seq<ChunkModel>;

    closed spec fn view(&self) -> Seq<ChunkModel> {
        self.chunks@.map_values(|c: Chunk| c@)
    }
}

impl Png {
    /// The eight signature bytes.
    pub fn header() -> (r: [u8; 8])
        ensures
            r@ == png_signature(),
    {
        let r: [u8; 8] = [137, 80, 78, 71, 13, 10, 26, 10];
        assert(r@ =~= png_signature());
        r
    }

    /// A container holding `chunks` in the given order.
    pub fn from_chunks(chunks: Vec<Chunk>) -> (r: Png)
        ensures
            r@ == chunks@.map_values(|c: Chunk| c@),
    {
        Png { chunks }
    }

    /// Decodes a whole buffer: the signature, then chunks until the buffer is
    /// exhausted. The first failure decides the error.
    pub fn try_from(bytes: &[u8]) -> (r: Result<Png, PngError>)
        ensures
            match parse_png(bytes@) {
                Ok(cs) => r matches Ok(p) && p@ == cs,
                Err(e) => r == Err::<Png, PngError>(e),
            },
    {
        let n = bytes.len();
        if n < 8 {
            return Err(PngError::InvalidSignature);
        }
        let sig = Png::header();
        let mut k: usize = 0;
        while k < 8
            invariant
                k <= 8 <= n == bytes@.len(),
                sig@ == png_signature(),
                bytes@.subrange(0, k as int) == png_signature().subrange(0, k as int),
            decreases 8 - k,
        {
            if bytes[k] != sig[k] {
                assert(bytes@.subrange(0, 8)[k as int] != png_signature()[k as int]);
                return Err(PngError::InvalidSignature);
            }
            assert(bytes@.subrange(0, k + 1) =~= bytes@.subrange(0, k as int).push(bytes@[k as int]));
            assert(png_signature().subrange(0, k + 1) =~= png_signature().subrange(0, k as int).push(png_signature()[k as int]));
            k = k + 1;
        }
        assert(png_signature().subrange(0, 8) =~= png_signature());
        let ghost whole = bytes@.subrange(8, n as int);
        let mut chunks: Vec<Chunk> = Vec::new();
        let mut pos: usize = 8;
        while pos < n
            invariant
                8 <= pos <= n == bytes@.len(),
                bytes@.subrange(0, 8) == png_signature(),
                whole == bytes@.subrange(8, n as int),
                parse_chunks(whole) == after(
                    chunks@.map_values(|c: Chunk| c@),
                    parse_chunks(bytes@.subrange(pos as int, n as int)),
                ),
            decreases n - pos,
        {
            let ghost here = bytes@.subrange(pos as int, n as int);
            let ghost acc = chunks@.map_values(|c: Chunk| c@);
            let rest = &bytes[pos..n];
            let c = match Chunk::try_from(rest) {
                Ok(c) => c,
                Err(e) => {
                    assert(rest@ == here);
                    assert(parse_chunks(here) == Err::<Seq<ChunkModel>, PngError>(e));
                    return Err(e);
                },
            };
            let size = c.length() as usize + 12;
            proof {
                let m = c@;
                assert(here.subrange(chunk_size(m), here.len() as int) =~= bytes@.subrange(
                    pos + size,
                    n as int,
                ));
                let tail = parse_chunks(bytes@.subrange(pos + size, n as int));
                match tail {
                    Ok(t) => {
                        assert(acc + (seq![m] + t) =~= acc.push(m) + t);
                    },
                    Err(_) => {},
                }
            }
            chunks.push(c);
            assert(chunks@.map_values(|c: Chunk| c@) =~= acc.push(c@));
            pos = pos + size;
        }
        assert(bytes@.subrange(pos as int, n as int) =~= Seq::<u8>::empty());
        assert(chunks@.map_values(|c: Chunk| c@) + Seq::<ChunkModel>::empty() =~= chunks@.map_values(
            |c: Chunk| c@,
        ));
        Ok(Png { chunks })
    }

    /// Adds `chunk` at the end; tags need not be unique.
    pub fn append_chunk(&mut self, chunk: Chunk)
        ensures
            final(self)@ == old(self)@.push(chunk@),
    {
        let ghost before = self.chunks@;
        let ghost m = chunk@;
        self.chunks.push(chunk);
        assert(self.chunks@.map_values(|c: Chunk| c@) =~= before.map_values(|c: Chunk| c@).push(m));
    }

    /// The position of the first chunk whose tag is exactly the bytes `name`.
    fn position_of(&self, name: &[u8]) -> (r: Option<usize>)
        ensures
            r matches Some(i) ==> first_index(self@, name@) == Some(i as int),
            r is None ==> first_index(self@, name@) is None,
    {
        let ghost cs = self@;
        let mut i: usize = 0;
        while i < self.chunks.len()
            invariant
                i <= self.chunks@.len() == cs.len(),
                cs == self@,
                first_index(cs.take(i as int), name@) is None,
            decreases self.chunks@.len() - i,
        {
            let ghost pre = cs.take(i as int + 1);
            assert(pre.drop_last() =~= cs.take(i as int));
            assert(pre.last() == self.chunks@[i as int]@);
            if tag_is(self.chunks[i].chunk_type(), name) {
                proof {
                    lemma_first_index_prefix(cs, i as int + 1, name@);
                }
                return Some(i);
            }
            i = i + 1;
        }
        assert(cs.take(i as int) =~= cs);
        None
    }

    /// The first chunk whose tag reads `chunk_type`, if any.
    pub fn chunk_by_type(&self, chunk_type: &str) -> (r: Option<&Chunk>)
        ensures
            match lookup(self@, chunk_type.spec_bytes()) {
                Some(m) => r matches Some(c) && c@ == m,
                None => r is None,
            },
    {
        let name = chunk_type.as_bytes();
        match self.position_of(name) {
            Some(i) => {
                proof {
                    lemma_first_index_bounds(self@, name@);
                    assert(self@[i as int] == self.chunks@[i as int]@);
                }
                Some(&self.chunks[i])
            },
            None => None,
        }
    }

    /// Removes and returns the first chunk whose tag reads `chunk_type`; the
    /// others keep their order. Fails with `ChunkNotFound` if there is none.
    pub fn remove_chunk(&mut self, chunk_type: &str) -> (r: Result<Chunk, PngError>)
        ensures
            match remove_first(old(self)@, chunk_type.spec_bytes()) {
                Ok((rest, m)) => r matches Ok(c) && c@ == m && final(self)@ == rest,
                Err(e) => r == Err::<Chunk, PngError>(e) && final(self)@ == old(self)@,
            },
    {
        let name = chunk_type.as_bytes();
        match self.position_of(name) {
            Some(i) => {
                proof {
                    lemma_first_index_bounds(self@, name@);
                }
                let ghost before = self.chunks@;
                let c = self.chunks.remove(i);
                assert(self.chunks@.map_values(|c: Chunk| c@) =~= before.map_values(
                    |c: Chunk| c@,
                ).remove(i as int));
                Ok(c)
            },
            None => Err(PngError::ChunkNotFound),
        }
    }

    /// The chunks, in order.
    pub fn chunks(&self) -> (r: &[Chunk])
        ensures
            r@.map_values(|c: Chunk| c@) == self@,
    {
        self.chunks.as_slice()
    }

    /// The container's bytes: the signature, then each chunk's bytes in order.
    pub fn as_bytes(&self) -> (r: Vec<u8>)
        ensures
            r@ == encode_png(self@),
    {
        let sig = Png::header();
        let mut v: Vec<u8> = Vec::new();
        let mut k: usize = 0;
        while k < 8
            invariant
                k <= 8,
                sig@ == png_signature(),
                v@ == png_signature().subrange(0, k as int),
            decreases 8 - k,
        {
            v.push(sig[k]);
            assert(png_signature().subrange(0, k + 1) =~= png_signature().subrange(0, k as int).push(png_signature()[k as int]));
            k = k + 1;
        }
        assert(png_signature().subrange(0, 8) =~= png_signature());
        let ghost cs = self@;
        let mut i: usize = 0;
        while i < self.chunks.len()
            invariant
                i <= self.chunks@.len() == cs.len(),
                cs == self@,
                v@ == png_signature() + encode_chunks(cs.take(i as int)),
            decreases self.chunks@.len() - i,
        {
            let b = self.chunks[i].as_bytes();
            let mut j: usize = 0;
            let ghost start = v@;
            while j < b.len()
                invariant
                    j <= b@.len(),
                    v@ == start + b@.subrange(0, j as int),
                decreases b@.len() - j,
            {
                v.push(b[j]);
                assert(b@.subrange(0, j + 1) =~= b@.subrange(0, j as int).push(b@[j as int]));
                j = j + 1;
            }
            assert(b@.subrange(0, b@.len() as int) =~= b@);
            assert(cs.take(i as int + 1).drop_last() =~= cs.take(i as int));
            assert(cs.take(i as int + 1).last() == cs[i as int]);
            assert(v@ =~= png_signature() + encode_chunks(cs.take(i as int + 1)));
            i = i + 1;
        }
        assert(cs.take(i as int) =~= cs);
        v
    }

    /// The payloads read as text and joined in order; fails with `InvalidText`
    /// if any payload is not valid UTF-8.
    pub fn to_string(&self) -> (r: Result<String, PngError>)
        ensures
            r is Ok <==> all_text(self@),
            r matches Ok(s) ==> s@ == concat_text(self@),
            r matches Err(e) ==> e == PngError::InvalidText,
    {
        let ghost cs = self@;
        let mut out = String::new();
        let mut i: usize = 0;
        while i < self.chunks.len()
            invariant
                i <= self.chunks@.len() == cs.len(),
                cs == self@,
                all_text(cs.take(i as int)),
                out@ == concat_text(cs.take(i as int)),
            decreases self.chunks@.len() - i,
        {
            assert(cs[i as int] == self.chunks@[i as int]@);
            let text = match self.chunks[i].data_as_string() {
                Ok(t) => t,
                Err(e) => {
                    assert(!valid_utf8(cs[i as int].data));
                    return Err(e);
                },
            };
            append_text(&mut out, text.as_str());
            let ghost pre = cs.take(i as int + 1);
            assert(pre.drop_last() =~= cs.take(i as int));
            assert(pre.last() == cs[i as int]);
            assert forall|j: int| 0 <= j < pre.len() implies valid_utf8(#[trigger] pre[j].data) by {
                if j < i {
                    assert(pre[j] == cs.take(i as int)[j]);
                }
            }
            i = i + 1;
        }
        assert(cs.take(i as int) =~= cs);
        Ok(out)
    }
}

proof fn lemma_first_index_prefix(cs: Seq<ChunkModel>, k: int, name: Seq<u8>)
    requires
        0 < k <= cs.len(),
        first_index(cs.take(k - 1), name) is None,
        cs[k - 1].tag == name,
    ensures
        first_index(cs, name) == Some(k - 1),
    decreases cs.len(),
{
    if k < cs.len() {
        assert(cs.drop_last().take(k - 1) =~= cs.take(k - 1));
        lemma_first_index_prefix(cs.drop_last(), k, name);
    } else {
        assert(cs.drop_last() =~= cs.take(k - 1));
    }
}


} // verus!
