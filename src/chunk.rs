//! One chunk: a length-prefixed, typed, checksummed record, and its byte encoding.
use crate::chunk_type::{is_type_code, ChunkType, InvalidChunkType};
use vstd::prelude::*;
use vstd::utf8::{decode_utf8, valid_utf8};

verus! {

/// The CRC-32 (ISO-HDLC parameters, as PNG uses) of a byte sequence.
pub uninterp spec fn crc32_iso_hdlc(bytes: Seq<u8>) -> u32;

/// Relies on crc's `Crc::<u32>::checksum` with the `CRC_32_ISO_HDLC` algorithm: the
/// checksum is a function of the bytes alone.
#[verifier::external_body]
fn crc32(bytes: &[u8]) -> (r: u32)
    ensures
        r == crc32_iso_hdlc(bytes@),
{
    crc::Crc::<u32>::new(&crc::CRC_32_ISO_HDLC).checksum(bytes)
}

#[verifier::external_type_specification]
#[verifier::external_body]
pub struct ExUtf8Error(core::str::Utf8Error);

/// Relies on `std::str::from_utf8`: it succeeds exactly on valid UTF-8, which it decodes.
#[verifier::external_body]
fn str_from_utf8(b: &[u8]) -> (r: Result<&str, core::str::Utf8Error>)
    ensures
        match r {
            Ok(s) => valid_utf8(b@) && s@ == decode_utf8(b@),
            Err(_) => !valid_utf8(b@),
        },
{
    core::str::from_utf8(b)
}

/// The value of four bytes read as a big-endian integer.
#[verifier::opaque]
pub open spec fn be_u32(b: Seq<u8>) -> u32 {
    ((b[0] as u32) << 24u32) | ((b[1] as u32) << 16u32) | ((b[2] as u32) << 8u32) | (b[3] as u32)
}

/// The four bytes of an integer, most significant first.
#[verifier::opaque]
pub open spec fn be_bytes(x: u32) -> Seq<u8> {
    seq![(x >> 24u32) as u8, (x >> 16u32) as u8, (x >> 8u32) as u8, x as u8]
}

/// Reading back the bytes of an integer gives the integer.
proof fn lemma_be_u32_of_bytes(x: u32)
    ensures
        be_u32(be_bytes(x)) == x,
        be_bytes(x).len() == 4,
{
    reveal(be_u32);
    reveal(be_bytes);
    assert((((((x >> 24u32) as u8) as u32) << 24u32) | ((((x >> 16u32) as u8) as u32) << 16u32)
        | ((((x >> 8u32) as u8) as u32) << 8u32) | ((x as u8) as u32)) == x) by (bit_vector);
}

/// Writing out the value of four bytes gives the bytes.
proof fn lemma_be_bytes_of_u32(b: Seq<u8>)
    requires
        b.len() == 4,
    ensures
        be_bytes(be_u32(b)) == b,
{
    reveal(be_u32);
    reveal(be_bytes);
    let (b0, b1, b2, b3) = (b[0], b[1], b[2], b[3]);
    let v = be_u32(b);
    assert((v >> 24u32) as u8 == b0 && (v >> 16u32) as u8 == b1 && (v >> 8u32) as u8 == b2 && v as u8
        == b3) by (bit_vector)
        requires
            v == ((b0 as u32) << 24u32) | ((b1 as u32) << 16u32) | ((b2 as u32) << 8u32) | (b3 as u32),
    ;
    assert(be_bytes(v) =~= b);
}

/// The big-endian integer at `at`.
pub(crate) fn read_be_u32(bytes: &[u8], at: usize) -> (r: u32)
    requires
        at + 4 <= bytes@.len(),
    ensures
        r == be_u32(bytes@.subrange(at as int, at + 4)),
{
    reveal(be_u32);
    ((bytes[at] as u32) << 24u32) | ((bytes[at + 1] as u32) << 16u32) | ((bytes[at + 2] as u32)
        << 8u32) | (bytes[at + 3] as u32)
}

/// Appends an integer's four bytes, most significant first.
fn push_be_u32(out: &mut Vec<u8>, x: u32)
    ensures
        final(out)@ == old(out)@ + be_bytes(x),
{
    reveal(be_bytes);
    out.push((x >> 24u32) as u8);
    out.push((x >> 16u32) as u8);
    out.push((x >> 8u32) as u8);
    out.push(x as u8);
    assert(final(out)@ =~= old(out)@ + be_bytes(x));
}

/// Appends every byte of `src`.
pub(crate) fn push_all(out: &mut Vec<u8>, src: &[u8])
    ensures
        final(out)@ == old(out)@ + src@,
{
    let mut i: usize = 0;
    while i < src.len()
        invariant
            0 <= i <= src@.len(),
            out@ == old(out)@ + src@.subrange(0, i as int),
        decreases src@.len() - i,
    {
        out.push(src[i]);
        i = i + 1;
        assert(out@ =~= old(out)@ + src@.subrange(0, i as int));
    }
    assert(src@.subrange(0, src@.len() as int) =~= src@);
}

/// What a chunk is: its type bytes, its payload and its stored checksum.
pub struct ChunkView {
    pub chunk_type: Seq<u8>,
    pub data: Seq<u8>,
    pub crc: u32,
}

impl ChunkView {
    /// A valid type, a payload whose length fits the length field, and the checksum of both.
    pub open spec fn wf(self) -> bool {
        &&& is_type_code(self.chunk_type)
        &&& self.data.len() <= u32::MAX
        &&& self.crc == crc32_iso_hdlc(self.chunk_type + self.data)
    }

    /// The chunk's encoding: length, type, payload, checksum; integers big-endian.
    pub open spec fn wire(self) -> Seq<u8> {
        be_bytes(self.data.len() as u32) + self.chunk_type + self.data + be_bytes(self.crc)
    }
}

/// The length field at the front of a chunk's bytes.
pub open spec fn declared_length(p: Seq<u8>) -> int {
    be_u32(p.subrange(0, 4)) as int
}

/// The type field of a chunk's bytes.
pub open spec fn type_field(p: Seq<u8>) -> Seq<u8> {
    p.subrange(4, 8)
}

/// The payload of a chunk's bytes: as many bytes after the type as the length field says.
pub open spec fn payload_field(p: Seq<u8>) -> Seq<u8> {
    p.subrange(8, 8 + declared_length(p))
}

/// The checksum field: the last four bytes, big-endian.
pub open spec fn checksum_field(p: Seq<u8>) -> u32 {
    be_u32(p.subrange(p.len() - 4, p.len() as int))
}

/// Fewer bytes than the fixed fields take.
pub open spec fn is_short_chunk(p: Seq<u8>) -> bool {
    p.len() < 12
}

/// The type field is not four ASCII letters.
pub open spec fn has_bad_type(p: Seq<u8>) -> bool {
    !is_short_chunk(p) && !is_type_code(type_field(p))
}

/// The bytes end before the payload that the length field announces.
pub open spec fn has_bad_length(p: Seq<u8>) -> bool {
    !is_short_chunk(p) && is_type_code(type_field(p)) && 8 + declared_length(p) > p.len()
}

/// Everything is in place but the checksum field disagrees with type and payload.
pub open spec fn has_bad_checksum(p: Seq<u8>) -> bool {
    &&& !is_short_chunk(p)
    &&& is_type_code(type_field(p))
    &&& 8 + declared_length(p) <= p.len()
    &&& crc32_iso_hdlc(type_field(p) + payload_field(p)) != checksum_field(p)
}

/// The bytes hold a chunk.
pub open spec fn is_chunk_encoding(p: Seq<u8>) -> bool {
    &&& !is_short_chunk(p)
    &&& is_type_code(type_field(p))
    &&& 8 + declared_length(p) <= p.len()
    &&& crc32_iso_hdlc(type_field(p) + payload_field(p)) == checksum_field(p)
}

/// The chunk that bytes accepted by `is_chunk_encoding` hold.
pub open spec fn decoded_chunk(p: Seq<u8>) -> ChunkView {
    ChunkView { chunk_type: type_field(p), data: payload_field(p), crc: checksum_field(p) }
}

/// Decoding a valid chunk's encoding gives the chunk back.
pub proof fn lemma_wire_round_trip(c: ChunkView)
    requires
        c.wf(),
    ensures
        is_chunk_encoding(c.wire()),
        decoded_chunk(c.wire()) == c,
        declared_length(c.wire()) == c.data.len(),
        c.wire().len() == 12 + c.data.len(),
{
    let w = c.wire();
    let n = c.data.len();
    lemma_be_u32_of_bytes(n as u32);
    lemma_be_u32_of_bytes(c.crc);
    assert(w.subrange(0, 4) =~= be_bytes(n as u32));
    assert(type_field(w) =~= c.chunk_type);
    assert(payload_field(w) =~= c.data);
    assert(w.subrange(w.len() - 4, w.len() as int) =~= be_bytes(c.crc));
}

/// Bytes that hold exactly one chunk are that chunk's encoding.
pub proof fn lemma_decoded_wire(p: Seq<u8>)
    requires
        is_chunk_encoding(p),
        p.len() == 12 + declared_length(p),
    ensures
        decoded_chunk(p).wf(),
        decoded_chunk(p).wire() == p,
{
    let c = decoded_chunk(p);
    let n = p.len();
    lemma_be_bytes_of_u32(p.subrange(0, 4));
    lemma_be_bytes_of_u32(p.subrange(n - 4, n as int));
    assert(c.data.len() == declared_length(p));
    assert(c.wire() =~= p);
}

/// Changing only the checksum field of a chunk's encoding leaves a checksum mismatch.
proof fn lemma_changed_checksum(p: Seq<u8>, q: Seq<u8>)
    requires
        is_chunk_encoding(p),
        12 + declared_length(p) <= p.len(),
        q.len() == p.len(),
        q.subrange(0, q.len() - 4) == p.subrange(0, p.len() - 4),
        checksum_field(q) != checksum_field(p),
    ensures
        has_bad_checksum(q),
{
    let n = p.len() - 4;
    let l = declared_length(p);
    assert(q.subrange(0, 4) =~= q.subrange(0, n).subrange(0, 4));
    assert(p.subrange(0, 4) =~= p.subrange(0, n).subrange(0, 4));
    assert(type_field(q) =~= q.subrange(0, n).subrange(4, 8));
    assert(type_field(p) =~= p.subrange(0, n).subrange(4, 8));
    assert(payload_field(q) =~= q.subrange(0, n).subrange(8, 8 + l));
    assert(payload_field(p) =~= p.subrange(0, n).subrange(8, 8 + l));
}

/// Flipping one bit of a valid chunk's checksum field makes the checksum disagree,
/// and nothing else.
pub proof fn lemma_flipped_checksum(c: ChunkView, k: int, bit: u8)
    requires
        c.wf(),
        0 <= k < 4,
        bit < 8,
    ensures
        has_bad_checksum(
            c.wire().update(
                c.wire().len() - 4 + k,
                c.wire()[c.wire().len() - 4 + k] ^ (1u8 << bit),
            ),
        ),
{
    let w = c.wire();
    let n = w.len() - 4;
    let x = w[n + k];
    let y = x ^ (1u8 << bit);
    let b = w.update(n + k, y);
    lemma_wire_round_trip(c);
    assert(y != x) by (bit_vector)
        requires
            bit < 8,
            y == x ^ (1u8 << bit),
    ;
    assert(b.subrange(0, n) =~= w.subrange(0, n));
    let tail = b.subrange(n, n + 4);
    let old_tail = w.subrange(n, n + 4);
    assert(tail[k] != old_tail[k]);
    lemma_be_bytes_of_u32(tail);
    lemma_be_bytes_of_u32(old_tail);
    lemma_changed_checksum(w, b);
}

/// A chunk's bytes that are not a chunk.
#[derive(Debug, PartialEq, Eq, Clone)]
pub enum MalformedChunk {
    /// Fewer than the twelve bytes of the fixed fields.
    TooShort,
    /// The type field is not four ASCII letters.
    InvalidType(InvalidChunkType),
    /// The bytes end before the announced payload does.
    LengthMismatch,
    /// The checksum field does not match type and payload.
    ChecksumMismatch,
}

/// The fault names what is wrong with the bytes.
pub open spec fn chunk_fails_with(p: Seq<u8>, m: MalformedChunk) -> bool {
    match m {
        MalformedChunk::TooShort => is_short_chunk(p),
        MalformedChunk::InvalidType(_) => has_bad_type(p),
        MalformedChunk::LengthMismatch => has_bad_length(p),
        MalformedChunk::ChecksumMismatch => has_bad_checksum(p),
    }
}

/// A typed payload with its checksum.
#[derive(Debug, Clone)]
pub struct Chunk {
    chunk_type: ChunkType,
    data: Vec<u8>,
    crc: u32,
}

impl View for Chunk {
    type V = ChunkView;

    closed spec fn view(&self) -> ChunkView {
        ChunkView { chunk_type: self.chunk_type@, data: self.data@, crc: self.crc }
    }
}

impl Chunk {
    pub open spec fn wf(&self) -> bool {
        self@.wf()
    }

    /// The CRC-32 of the type bytes followed by the payload.
    pub fn crc_checksum(chunk_type: &ChunkType, data: &Vec<u8>) -> (r: u32)
        ensures
            r == crc32_iso_hdlc(chunk_type@ + data@),
    {
        let mut all: Vec<u8> = Vec::new();
        let t = chunk_type.bytes();
        push_all(&mut all, t.as_slice());
        push_all(&mut all, data.as_slice());
        crc32(all.as_slice())
    }

    /// A chunk of the given type and payload, with their checksum.
    pub fn new(chunk_type: ChunkType, data: Vec<u8>) -> (r: Chunk)
        requires
            chunk_type.wf(),
            data@.len() <= u32::MAX,
        ensures
            r@ == (ChunkView {
                chunk_type: chunk_type@,
                data: data@,
                crc: crc32_iso_hdlc(chunk_type@ + data@),
            }),
            r.wf(),
    {
        let crc = Chunk::crc_checksum(&chunk_type, &data);
        Chunk { chunk_type, data, crc }
    }

    /// The payload's length in bytes.
    pub fn length(&self) -> (r: usize)
        ensures
            r == self@.data.len(),
    {
        self.data.len()
    }

    /// The stored checksum.
    pub fn crc(&self) -> (r: u32)
        ensures
            r == self@.crc,
    {
        self.crc
    }

    /// The chunk's type.
    pub fn chunk_type(&self) -> (r: &ChunkType)
        ensures
            r@ == self@.chunk_type,
    {
        &self.chunk_type
    }

    /// The payload as text, when it is valid UTF-8.
    pub fn data_as_string(&self) -> (r: Result<String, core::str::Utf8Error>)
        ensures
            match r {
                Ok(s) => valid_utf8(self@.data) && s@ == decode_utf8(self@.data),
                Err(_) => !valid_utf8(self@.data),
            },
    {
        match str_from_utf8(self.data.as_slice()) {
            Ok(s) => Ok(s.to_owned()),
            Err(e) => Err(e),
        }
    }

    /// The chunk's encoding: length, type, payload and checksum.
    pub fn as_bytes(&self) -> (r: Vec<u8>)
        requires
            self.wf(),
        ensures
            r@ == self@.wire(),
    {
        let mut bytes: Vec<u8> = Vec::new();
        push_be_u32(&mut bytes, self.data.len() as u32);
        let t = self.chunk_type.bytes();
        push_all(&mut bytes, t.as_slice());
        push_all(&mut bytes, self.data.as_slice());
        push_be_u32(&mut bytes, self.crc);
        bytes
    }

    /// Reads a chunk from its bytes. The payload follows the type for as many bytes as the
    /// length field says; the checksum is the last four bytes given.
    pub fn try_from(bytes: &[u8]) -> (r: Result<Chunk, MalformedChunk>)
        ensures
            match r {
                Ok(c) => is_chunk_encoding(bytes@) && c@ == decoded_chunk(bytes@) && c.wf(),
                Err(m) => {
                    &&& chunk_fails_with(bytes@, m)
                    &&& (m matches MalformedChunk::InvalidType(e) ==> (valid_utf8(
                        type_field(bytes@),
                    ) ==> e@ == decode_utf8(type_field(bytes@))))
                },
            },
    {
        if bytes.len() < 12 {
            return Err(MalformedChunk::TooShort);
        }
        let length = read_be_u32(bytes, 0);
        let type_bytes: [u8; 4] = [bytes[4], bytes[5], bytes[6], bytes[7]];
        assert(type_bytes@ =~= type_field(bytes@));
        let chunk_type = match ChunkType::try_from(type_bytes) {
            Ok(t) => t,
            Err(e) => {
                return Err(MalformedChunk::InvalidType(e));
            },
        };
        if length as usize > bytes.len() - 8 {
            return Err(MalformedChunk::LengthMismatch);
        }
        let end: usize = 8 + length as usize;
        let mut data: Vec<u8> = Vec::new();
        let mut i: usize = 8;
        while i < end
            invariant
                8 <= i <= end <= bytes@.len(),
                data@ == bytes@.subrange(8, i as int),
            decreases end - i,
        {
            data.push(bytes[i]);
            i = i + 1;
            assert(data@ =~= bytes@.subrange(8, i as int));
        }
        let crc = read_be_u32(bytes, bytes.len() - 4);
        let computed = Chunk::crc_checksum(&chunk_type, &data);
        if computed != crc {
            return Err(MalformedChunk::ChecksumMismatch);
        }
        Ok(Chunk { chunk_type, data, crc })
    }
}

} // verus!
