//! A PNG file as its signature followed by an ordered list of chunks.
use crate::chunk::{
    be_u32, chunk_fails_with, decoded_chunk, is_chunk_encoding, lemma_decoded_wire,
    lemma_wire_round_trip, push_all, read_be_u32, Chunk, ChunkView, MalformedChunk,
};
use crate::chunk_type::ascii_text;
use vstd::prelude::*;

verus! {

/// The eight bytes that open every PNG file.
pub open spec fn signature() -> Seq<u8> {
    seq![137u8, 80u8, 78u8, 71u8, 13u8, 10u8, 26u8, 10u8]
}

/// The bytes begin with the signature.
pub open spec fn has_signature(b: Seq<u8>) -> bool {
    b.len() >= 8 && b.subrange(0, 8) == signature()
}

/// The encodings of the chunks, one after the other.
pub open spec fn chunks_wire(s: Seq<ChunkView>) -> Seq<u8>
    decreases s.len(),
{
    if s.len() == 0 {
        Seq::empty()
    } else {
        s[0].wire() + chunks_wire(s.drop_first())
    }
}

/// The encoding of a file: the signature, then each chunk in order.
pub open spec fn png_wire(s: Seq<ChunkView>) -> Seq<u8> {
    signature() + chunks_wire(s)
}

/// The chunks that the bytes from `pos` to the end hold, read one after the other, or
/// `None` where some piece is not a chunk. Each piece spans its twelve fixed bytes and
/// the payload that its length field announces.
pub open spec fn parse_chunks(b: Seq<u8>, pos: int) -> Option<Seq<ChunkView>>
    decreases b.len() - pos,
{
    if pos < 0 || pos >= b.len() {
        Some(Seq::empty())
    } else if b.len() - pos < 12 {
        None
    } else {
        let piece_len = 12 + be_u32(b.subrange(pos, pos + 4)) as int;
        let piece = b.subrange(pos, pos + piece_len);
        if piece_len > b.len() - pos || !is_chunk_encoding(piece) {
            None
        } else {
            match parse_chunks(b, pos + piece_len) {
                Some(t) => Some(seq![decoded_chunk(piece)] + t),
                None => None,
            }
        }
    }
}

/// Reading chunks from `pos` on stops at a piece with fault `m`: fewer bytes left than the
/// fixed fields take, a length field that runs past the end, or a piece that is not a chunk.
pub open spec fn stream_fails_with(b: Seq<u8>, pos: int, m: MalformedChunk) -> bool
    decreases b.len() - pos,
{
    if pos < 0 || pos >= b.len() {
        false
    } else if b.len() - pos < 12 {
        m is TooShort
    } else {
        let piece_len = 12 + be_u32(b.subrange(pos, pos + 4)) as int;
        let piece = b.subrange(pos, pos + piece_len);
        if piece_len > b.len() - pos {
            m is LengthMismatch
        } else if !is_chunk_encoding(piece) {
            chunk_fails_with(piece, m)
        } else {
            stream_fails_with(b, pos + piece_len, m)
        }
    }
}

/// The chunk's type reads as the text.
pub open spec fn has_type(c: ChunkView, text: Seq<char>) -> bool {
    ascii_text(c.chunk_type) == text
}

/// No chunk of the sequence has the type.
pub open spec fn no_chunk_of_type(s: Seq<ChunkView>, text: Seq<char>) -> bool {
    forall|j: int| 0 <= j < s.len() ==> !has_type(#[trigger] s[j], text)
}

/// `i` is the position of the first chunk of the type.
pub open spec fn is_first_of_type(s: Seq<ChunkView>, text: Seq<char>, i: int) -> bool {
    &&& 0 <= i < s.len()
    &&& has_type(s[i], text)
    &&& no_chunk_of_type(s.take(i), text)
}

proof fn lemma_chunks_wire_push(s: Seq<ChunkView>, c: ChunkView)
    ensures
        chunks_wire(s.push(c)) == chunks_wire(s) + c.wire(),
    decreases s.len(),
{
    if s.len() == 0 {
        assert(s.push(c).drop_first() =~= Seq::<ChunkView>::empty());
        assert(chunks_wire(s.push(c).drop_first()) == Seq::<u8>::empty());
        assert(chunks_wire(s.push(c)) =~= c.wire());
    } else {
        lemma_chunks_wire_push(s.drop_first(), c);
        assert(s.push(c).drop_first() =~= s.drop_first().push(c));
        assert(chunks_wire(s.push(c)) =~= chunks_wire(s) + c.wire());
    }
}

proof fn lemma_parse_chunks_of_wire(b: Seq<u8>, pos: int, s: Seq<ChunkView>)
    requires
        0 <= pos <= b.len(),
        b.subrange(pos, b.len() as int) == chunks_wire(s),
        forall|i: int| 0 <= i < s.len() ==> (#[trigger] s[i]).wf(),
    ensures
        parse_chunks(b, pos) == Some(s),
    decreases s.len(),
{
    if s.len() == 0 {
        assert(b.subrange(pos, b.len() as int).len() == 0);
        assert(s =~= Seq::<ChunkView>::empty());
    } else {
        let c = s[0];
        assert(c.wf());
        lemma_wire_round_trip(c);
        let w = c.wire();
        let n = w.len();
        let rest = b.subrange(pos, b.len() as int);
        assert(rest =~= w + chunks_wire(s.drop_first()));
        assert(b.subrange(pos, pos + 4) =~= w.subrange(0, 4));
        assert(12 + be_u32(b.subrange(pos, pos + 4)) as int == n);
        assert(b.subrange(pos, pos + n) =~= w);
        assert(b.subrange(pos + n, b.len() as int) =~= rest.subrange(n as int, rest.len() as int));
        assert(rest.subrange(n as int, rest.len() as int) =~= chunks_wire(s.drop_first()));
        assert forall|i: int| 0 <= i < s.drop_first().len() implies (#[trigger] s.drop_first()[i]).wf() by {
            assert(s.drop_first()[i] == s[i + 1]);
        }
        lemma_parse_chunks_of_wire(b, pos + n, s.drop_first());
        assert(seq![c] + s.drop_first() =~= s);
    }
}

proof fn lemma_wire_of_parsed(b: Seq<u8>, pos: int, s: Seq<ChunkView>)
    requires
        0 <= pos <= b.len(),
        parse_chunks(b, pos) == Some(s),
    ensures
        chunks_wire(s) == b.subrange(pos, b.len() as int),
        forall|i: int| 0 <= i < s.len() ==> (#[trigger] s[i]).wf(),
    decreases b.len() - pos,
{
    if pos == b.len() {
        assert(b.subrange(pos, b.len() as int) =~= Seq::<u8>::empty());
    } else {
        let piece_len = 12 + be_u32(b.subrange(pos, pos + 4)) as int;
        let piece = b.subrange(pos, pos + piece_len);
        assert(piece.subrange(0, 4) =~= b.subrange(pos, pos + 4));
        lemma_decoded_wire(piece);
        let t = parse_chunks(b, pos + piece_len)->Some_0;
        lemma_wire_of_parsed(b, pos + piece_len, t);
        let d = decoded_chunk(piece);
        assert(s == seq![d] + t);
        assert(s.drop_first() =~= t);
        assert(b.subrange(pos, b.len() as int) =~= piece + b.subrange(pos + piece_len, b.len() as int));
        assert forall|i: int| 0 <= i < s.len() implies (#[trigger] s[i]).wf() by {
            if i > 0 {
                assert(s[i] == t[i - 1]);
            }
        }
    }
}

/// Reading a file and writing it again gives back the same bytes.
pub proof fn lemma_parsed_png_wire(b: Seq<u8>, s: Seq<ChunkView>)
    requires
        has_signature(b),
        parse_chunks(b, 8) == Some(s),
    ensures
        png_wire(s) == b,
{
    lemma_wire_of_parsed(b, 8, s);
    assert(b =~= b.subrange(0, 8) + b.subrange(8, b.len() as int));
}

/// Reading back the encoding of valid chunks finds the signature and exactly those chunks.
pub proof fn lemma_png_round_trip(s: Seq<ChunkView>)
    requires
        forall|i: int| 0 <= i < s.len() ==> (#[trigger] s[i]).wf(),
    ensures
        has_signature(png_wire(s)),
        parse_chunks(png_wire(s), 8) == Some(s),
{
    let b = png_wire(s);
    assert(b.subrange(0, 8) =~= signature());
    assert(b.subrange(8, b.len() as int) =~= chunks_wire(s));
    lemma_parse_chunks_of_wire(b, 8, s);
}

/// Appending a chunk of a type that no earlier chunk has, then removing the first chunk of
/// that type, gives back the chunks as they were.
pub proof fn lemma_append_then_remove(s: Seq<ChunkView>, c: ChunkView, text: Seq<char>)
    requires
        has_type(c, text),
        no_chunk_of_type(s, text),
    ensures
        is_first_of_type(s.push(c), text, s.len() as int),
        forall|i: int| is_first_of_type(s.push(c), text, i) ==> i == s.len(),
        s.push(c).remove(s.len() as int) == s,
{
    let t = s.push(c);
    assert(t.take(s.len() as int) =~= s);
    assert forall|i: int| is_first_of_type(t, text, i) implies i == s.len() by {
        if i < s.len() {
            assert(t[i] == s[i]);
        }
    }
    assert(t.remove(s.len() as int) =~= s);
}

/// The ways reading a file can fail.
#[derive(Debug, PartialEq, Eq, Clone)]
pub enum FormatError {
    /// The bytes do not begin with the PNG signature.
    BadSignature,
    /// A piece after the signature is not a chunk.
    Chunk(MalformedChunk),
}

/// No chunk has the type asked for.
#[derive(Debug, PartialEq, Eq, Clone)]
pub struct NotFound;

/// The signature, as bytes.
pub fn standard_header() -> (r: [u8; 8])
    ensures
        r@ == signature(),
{
    let r: [u8; 8] = [137, 80, 78, 71, 13, 10, 26, 10];
    assert(r@ =~= signature());
    r
}

/// The chunks of a PNG file, in file order.
#[derive(Debug, Clone)]
pub struct Png {
    chunks: Vec<Chunk>,
}

impl View for Png {
    type V = Seq<ChunkView>;

    closed spec fn view(&self) -> Seq<ChunkView> {
        self.chunks@.map_values(|c: Chunk| c@)
    }
}

impl Png {
    /// Every chunk is valid.
    pub open spec fn wf(&self) -> bool {
        forall|i: int| 0 <= i < self@.len() ==> (#[trigger] self@[i]).wf()
    }

    /// A file of the given chunks, in that order.
    pub fn from_chunks(chunks: Vec<Chunk>) -> (r: Png)
        requires
            forall|i: int| 0 <= i < chunks@.len() ==> (#[trigger] chunks@[i]).wf(),
        ensures
            r@ == chunks@.map_values(|c: Chunk| c@),
            r.wf(),
    {
        Png { chunks }
    }

    /// Reads a whole file: the signature, then chunks until the bytes run out.
    pub fn try_from(bytes: &[u8]) -> (r: Result<Png, FormatError>)
        ensures
            match r {
                Ok(p) => has_signature(bytes@) && parse_chunks(bytes@, 8) == Some(p@) && p.wf(),
                Err(FormatError::BadSignature) => !has_signature(bytes@),
                Err(FormatError::Chunk(m)) => has_signature(bytes@) && parse_chunks(bytes@, 8)
                    is None && stream_fails_with(bytes@, 8, m),
            },
    {
        let header = standard_header();
        if bytes.len() < 8 {
            return Err(FormatError::BadSignature);
        }
        let mut k: usize = 0;
        while k < 8
            invariant
                0 <= k <= 8 <= bytes@.len(),
                header@ == signature(),
                forall|j: int| 0 <= j < k ==> bytes@[j] == #[trigger] signature()[j],
            decreases 8 - k,
        {
            if bytes[k] != header[k] {
                assert(bytes@.subrange(0, 8)[k as int] != signature()[k as int]);
                return Err(FormatError::BadSignature);
            }
            k = k + 1;
        }
        assert(bytes@.subrange(0, 8) =~= signature());
        let mut chunks: Vec<Chunk> = Vec::new();
        let mut pos: usize = 8;
        while pos < bytes.len()
            invariant
                8 <= pos <= bytes@.len(),
                has_signature(bytes@),
                forall|i: int| 0 <= i < chunks@.len() ==> (#[trigger] chunks@[i]).wf(),
                parse_chunks(bytes@, 8) == match parse_chunks(bytes@, pos as int) {
                    Some(t) => Some(chunks@.map_values(|c: Chunk| c@) + t),
                    None => None::<Seq<ChunkView>>,
                },
                forall|m: MalformedChunk|
                    stream_fails_with(bytes@, 8, m) == #[trigger] stream_fails_with(
                        bytes@,
                        pos as int,
                        m,
                    ),
            decreases bytes@.len() - pos,
        {
            let rest = bytes.len() - pos;
            if rest < 12 {
                assert(stream_fails_with(bytes@, pos as int, MalformedChunk::TooShort));
                return Err(FormatError::Chunk(MalformedChunk::TooShort));
            }
            let length = read_be_u32(bytes, pos);
            let piece_len: u64 = 12u64 + length as u64;
            if piece_len > rest as u64 {
                assert(stream_fails_with(bytes@, pos as int, MalformedChunk::LengthMismatch));
                return Err(FormatError::Chunk(MalformedChunk::LengthMismatch));
            }
            let end: usize = pos + piece_len as usize;
            let piece = vstd::slice::slice_subrange(bytes, pos, end);
            let chunk = match Chunk::try_from(piece) {
                Ok(c) => c,
                Err(e) => {
                    assert(stream_fails_with(bytes@, pos as int, e));
                    return Err(FormatError::Chunk(e));
                },
            };
            proof {
                assert forall|m: MalformedChunk|
                    stream_fails_with(bytes@, 8, m) == #[trigger] stream_fails_with(
                        bytes@,
                        end as int,
                        m,
                    ) by {
                    assert(stream_fails_with(bytes@, pos as int, m) == stream_fails_with(
                        bytes@,
                        end as int,
                        m,
                    ));
                }
                let old_view = chunks@.map_values(|c: Chunk| c@);
                assert(chunks@.push(chunk).map_values(|c: Chunk| c@) =~= old_view.push(chunk@));
                if let Some(t) = parse_chunks(bytes@, end as int) {
                    assert(old_view + (seq![chunk@] + t) =~= old_view.push(chunk@) + t);
                }
            }
            chunks.push(chunk);
            pos = end;
        }
        proof {
            assert(chunks@.map_values(|c: Chunk| c@) + Seq::<ChunkView>::empty() =~= chunks@.map_values(
                |c: Chunk| c@,
            ));
        }
        Ok(Png { chunks })
    }

    /// Adds a chunk after the last one.
    pub fn append_chunk(&mut self, chunk: Chunk)
        requires
            old(self).wf(),
            chunk.wf(),
        ensures
            final(self)@ == old(self)@.push(chunk@),
            final(self).wf(),
    {
        self.chunks.push(chunk);
        assert(self.chunks@.map_values(|c: Chunk| c@) =~= old(self)@.push(chunk@));
    }

    /// The position of the first chunk whose type reads as the text, if any.
    fn position_of_type(&self, chunk_type: &str) -> (r: Option<usize>)
        requires
            self.wf(),
        ensures
            match r {
                Some(i) => is_first_of_type(self@, chunk_type@, i as int),
                None => no_chunk_of_type(self@, chunk_type@),
            },
    {
        let wanted = chunk_type.to_owned();
        let mut i: usize = 0;
        while i < self.chunks.len()
            invariant
                0 <= i <= self@.len(),
                self@.len() == self.chunks@.len(),
                self.wf(),
                wanted@ == chunk_type@,
                no_chunk_of_type(self@.take(i as int), chunk_type@),
            decreases self@.len() - i,
        {
            let c = &self.chunks[i];
            assert(c@ == self@[i as int]);
            let text = c.chunk_type().to_string();
            if text == wanted {
                return Some(i);
            }
            assert forall|j: int| 0 <= j < i + 1 implies !has_type(
                #[trigger] self@.take(i + 1)[j],
                chunk_type@,
            ) by {
                if j < i {
                    assert(self@.take(i + 1)[j] == self@.take(i as int)[j]);
                }
            }
            i = i + 1;
        }
        assert(self@.take(i as int) =~= self@);
        None
    }

    /// Removes the first chunk whose type reads as the text and hands it back; the chunks
    /// after it move up one place.
    pub fn remove_chunk(&mut self, chunk_type: &str) -> (r: Result<Chunk, NotFound>)
        requires
            old(self).wf(),
        ensures
            final(self).wf(),
            match r {
                Ok(c) => exists|i: int|
                    is_first_of_type(old(self)@, chunk_type@, i) && c@ == old(self)@[i]
                        && final(self)@ == old(self)@.remove(i),
                Err(_) => no_chunk_of_type(old(self)@, chunk_type@) && final(self)@ == old(
                    self,
                )@,
            },
    {
        match self.position_of_type(chunk_type) {
            Some(i) => {
                let c = self.chunks.remove(i);
                assert(self.chunks@.map_values(|c: Chunk| c@) =~= old(self)@.remove(i as int));
                assert(is_first_of_type(old(self)@, chunk_type@, i as int) && c@ == old(self)@[i as int]
                    && self@ == old(self)@.remove(i as int));
                Ok(c)
            },
            None => Err(NotFound),
        }
    }

    /// The first chunk whose type reads as the text, if any.
    pub fn chunk_by_type(&self, chunk_type: &str) -> (r: Option<&Chunk>)
        requires
            self.wf(),
        ensures
            match r {
                Some(c) => exists|i: int|
                    is_first_of_type(self@, chunk_type@, i) && c@ == self@[i],
                None => no_chunk_of_type(self@, chunk_type@),
            },
    {
        match self.position_of_type(chunk_type) {
            Some(i) => {
                let c = &self.chunks[i];
                assert(is_first_of_type(self@, chunk_type@, i as int) && c@ == self@[i as int]);
                Some(c)
            },
            None => None,
        }
    }

    /// All chunks, in file order.
    pub fn chunks(&self) -> (r: &[Chunk])
        ensures
            r@.map_values(|c: Chunk| c@) == self@,
    {
        self.chunks.as_slice()
    }

    /// The file's encoding: the signature, then each chunk's encoding in order.
    pub fn as_bytes(&self) -> (r: Vec<u8>)
        requires
            self.wf(),
        ensures
            r@ == png_wire(self@),
    {
        let header = standard_header();
        let mut bytes: Vec<u8> = Vec::new();
        push_all(&mut bytes, header.as_slice());
        let mut i: usize = 0;
        while i < self.chunks.len()
            invariant
                0 <= i <= self@.len(),
                self@.len() == self.chunks@.len(),
                self.wf(),
                bytes@ == png_wire(self@.take(i as int)),
            decreases self@.len() - i,
        {
            let c = &self.chunks[i];
            assert(c@ == self@[i as int]);
            let w = c.as_bytes();
            push_all(&mut bytes, w.as_slice());
            proof {
                lemma_chunks_wire_push(self@.take(i as int), c@);
                assert(self@.take(i as int).push(c@) =~= self@.take(i + 1));
                assert(bytes@ =~= png_wire(self@.take(i + 1)));
            }
            i = i + 1;
        }
        assert(self@.take(i as int) =~= self@);
        bytes
    }
}

} // verus!
