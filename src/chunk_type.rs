//! Four-letter chunk type codes and the property bits held in their case.
use vstd::prelude::*;
use vstd::utf8::{decode_utf8, encode_utf8, pop_first_scalar, valid_utf8};

verus! {

broadcast use {vstd::utf8::encode_utf8_valid_utf8, vstd::utf8::encode_utf8_decode_utf8};

/// An ASCII capital letter.
pub open spec fn is_upper(b: u8) -> bool {
    65 <= b && b <= 90
}

/// An ASCII small letter.
pub open spec fn is_lower(b: u8) -> bool {
    97 <= b && b <= 122
}

/// An ASCII letter of either case.
pub open spec fn is_letter(b: u8) -> bool {
    is_upper(b) || is_lower(b)
}

/// Exactly four bytes, each of them an ASCII letter.
pub open spec fn is_type_code(b: Seq<u8>) -> bool {
    b.len() == 4 && forall|i: int| 0 <= i < 4 ==> is_letter(#[trigger] b[i])
}

/// The text of bytes that are all ASCII: one character for each byte.
pub open spec fn ascii_text(b: Seq<u8>) -> Seq<char> {
    b.map_values(|x: u8| x as char)
}

/// ASCII bytes are valid UTF-8 and decode to one character each.
pub proof fn lemma_ascii_decode(b: Seq<u8>)
    requires
        forall|i: int| 0 <= i < b.len() ==> #[trigger] b[i] < 128,
    ensures
        valid_utf8(b),
        decode_utf8(b) == ascii_text(b),
    decreases b.len(),
{
    if b.len() > 0 {
        let rest = b.subrange(1, b.len() as int);
        assert forall|i: int| 0 <= i < rest.len() implies #[trigger] rest[i] < 128 by {
            assert(rest[i] == b[i + 1]);
        }
        lemma_ascii_decode(rest);
        let x = b[0];
        assert(x < 128);
        assert((x & 0x7F) == x) by (bit_vector)
            requires
                x < 128,
        ;
        assert(pop_first_scalar(b) == rest);
        assert(ascii_text(b) =~= seq![x as char] + ascii_text(rest));
    }
}

fn byte_is_upper(b: u8) -> (r: bool)
    ensures
        r == is_upper(b),
{
    65 <= b && b <= 90
}

fn byte_is_lower(b: u8) -> (r: bool)
    ensures
        r == is_lower(b),
{
    97 <= b && b <= 122
}

/// Relies on `String::from_utf8_lossy`: bytes that are valid UTF-8 are decoded as they stand.
#[verifier::external_body]
fn lossy_text(b: &[u8]) -> (r: String)
    ensures
        valid_utf8(b@) ==> r@ == decode_utf8(b@),
{
    String::from_utf8_lossy(b).into_owned()
}

/// A chunk type: four ASCII letters whose case carries the chunk's property bits.
#[derive(Debug, PartialEq, Eq, Hash, Clone)]
pub struct ChunkType([u8; 4]);

/// The error of building a chunk type from anything but four ASCII letters; it holds the
/// rejected input as text.
#[derive(Debug, PartialEq, Eq, Clone)]
pub struct InvalidChunkType(String);

impl View for InvalidChunkType {
    type V = Seq<char>;

    closed spec fn view(&self) -> Seq<char> {
        self.0@
    }
}

impl InvalidChunkType {
    /// The rejected input, as text.
    pub fn text(&self) -> (r: &str)
        ensures
            r@ == self@,
    {
        self.0.as_str()
    }
}

impl View for ChunkType {
    type V = Seq<u8>;

    closed spec fn view(&self) -> Seq<u8> {
        self.0@
    }
}

impl ChunkType {
    /// Every chunk type that the constructors hand out is four ASCII letters.
    pub open spec fn wf(&self) -> bool {
        is_type_code(self@)
    }

    /// The type as text.
    pub open spec fn text(&self) -> Seq<char> {
        ascii_text(self@)
    }

    /// Accepts four bytes when each is an ASCII letter.
    pub fn try_from(bytes: [u8; 4]) -> (r: Result<ChunkType, InvalidChunkType>)
        ensures
            match r {
                Ok(t) => is_type_code(bytes@) && t@ == bytes@ && t.wf(),
                Err(e) => !is_type_code(bytes@) && (valid_utf8(bytes@) ==> e@ == decode_utf8(
                    bytes@,
                )),
            },
    {
        let mut i: usize = 0;
        while i < 4
            invariant
                0 <= i <= 4,
                bytes@.len() == 4,
                forall|j: int| 0 <= j < i ==> is_letter(#[trigger] bytes@[j]),
            decreases 4 - i,
        {
            let b = bytes[i];
            if !(byte_is_upper(b) || byte_is_lower(b)) {
                return Err(InvalidChunkType(lossy_text(bytes.as_slice())));
            }
            i = i + 1;
        }
        Ok(ChunkType(bytes))
    }

    /// Accepts text whose UTF-8 encoding is four ASCII letters.
    pub fn from_str(s: &str) -> (r: Result<ChunkType, InvalidChunkType>)
        ensures
            match r {
                Ok(t) => is_type_code(encode_utf8(s@)) && t@ == encode_utf8(s@) && t.wf()
                    && t.text() == s@,
                Err(e) => !is_type_code(encode_utf8(s@)) && e@ == s@,
            },
    {
        let b = s.as_bytes();
        if b.len() != 4 {
            return Err(InvalidChunkType(lossy_text(b)));
        }
        let arr: [u8; 4] = [b[0], b[1], b[2], b[3]];
        assert(arr@ =~= b@);
        let r = ChunkType::try_from(arr);
        proof {
            if r is Ok {
                let t = r->Ok_0;
                assert forall|i: int| 0 <= i < t@.len() implies #[trigger] t@[i] < 128 by {
                    assert(is_letter(t@[i]));
                }
                lemma_ascii_decode(t@);
            }
        }
        r
    }

    /// The four raw bytes.
    pub fn bytes(&self) -> (r: [u8; 4])
        ensures
            r@ == self@,
    {
        self.0
    }

    /// Whether this is the image trailer type, `IEND`.
    pub fn is_iend(&self) -> (r: bool)
        ensures
            r == (self@ == seq![73u8, 69u8, 78u8, 68u8]),
    {
        let r = self.0[0] == 73 && self.0[1] == 69 && self.0[2] == 78 && self.0[3] == 68;
        proof {
            if r {
                assert(self@ =~= seq![73u8, 69u8, 78u8, 68u8]);
            }
        }
        r
    }

    /// Critical: the first letter is a capital.
    pub fn is_critical(&self) -> (r: bool)
        ensures
            r == is_upper(self@[0]),
    {
        byte_is_upper(self.0[0])
    }

    /// Public: the second letter is a capital.
    pub fn is_public(&self) -> (r: bool)
        ensures
            r == is_upper(self@[1]),
    {
        byte_is_upper(self.0[1])
    }

    /// The reserved bit is valid: the third letter is a capital.
    pub fn is_reserved_bit_valid(&self) -> (r: bool)
        ensures
            r == is_upper(self@[2]),
    {
        byte_is_upper(self.0[2])
    }

    /// Safe to copy: the fourth letter is small.
    pub fn is_safe_to_copy(&self) -> (r: bool)
        ensures
            r == is_lower(self@[3]),
    {
        byte_is_lower(self.0[3])
    }

    /// A type is valid when its reserved bit is.
    pub fn is_valid(&self) -> (r: bool)
        ensures
            r == is_upper(self@[2]),
    {
        self.is_reserved_bit_valid()
    }

    /// The type as text: its four letters.
    pub fn to_string(&self) -> (r: String)
        requires
            self.wf(),
        ensures
            r@ == self.text(),
    {
        proof {
            assert forall|i: int| 0 <= i < self@.len() implies #[trigger] self@[i] < 128 by {
                assert(is_letter(self@[i]));
            }
            lemma_ascii_decode(self@);
        }
        lossy_text(self.0.as_slice())
    }
}

impl core::str::FromStr for ChunkType {
    type Err = InvalidChunkType;

    fn from_str(s: &str) -> Result<ChunkType, InvalidChunkType> {
        ChunkType::from_str(s)
    }
}

} // verus!
