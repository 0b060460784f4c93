//! What the library takes on trust from outside crates and from std.

use vstd::prelude::*;
use vstd::utf8::{decode_utf8, encode_utf8, valid_utf8};

verus! {

/// The CRC-32 (IEEE) checksum of a byte sequence, as `crc32fast` computes it.
pub uninterp spec fn crc32(bytes: Seq<u8>) -> u32;

/// `crc32fast::hash`: the checksum is a function of the bytes alone.
pub assume_specification[ crc32fast::hash ](buf: &[u8]) -> (checksum: u32)
    ensures
        checksum == crc32(buf@),
;

/// The running checksum of `crc32fast`.
#[verifier::external_type_specification]
#[verifier::external_body]
pub struct ExHasher(crc32fast::Hasher);

/// The bytes that a running checksum was fed.
pub uninterp spec fn fed_bytes(hasher: crc32fast::Hasher) -> Seq<u8>;

/// `crc32fast::Hasher::new`: nothing was fed yet.
pub assume_specification[ crc32fast::Hasher::new ]() -> (hasher: crc32fast::Hasher)
    ensures
        fed_bytes(hasher) == Seq::<u8>::empty(),
;

/// `crc32fast::Hasher::update`: feeds the bytes behind those that were fed. The
/// hasher counts its bytes in 64 bits.
pub assume_specification[ crc32fast::Hasher::update ](hasher: &mut crc32fast::Hasher, buf: &[u8])
    requires
        fed_bytes(*old(hasher)).len() + buf@.len() <= u64::MAX,
    ensures
        fed_bytes(*final(hasher)) == fed_bytes(*old(hasher)) + buf@,
;

/// `crc32fast::Hasher::finalize`: the checksum of all bytes that were fed, the
/// same that `crc32fast::hash` gives for them in one piece.
pub assume_specification[ crc32fast::Hasher::finalize ](hasher: crc32fast::Hasher) -> (
    checksum: u32)
    ensures
        checksum == crc32(fed_bytes(hasher)),
;

/// The text that `encoding_rs` reads from Shift_JIS bytes, and whether it met
/// malformed bytes. Bytes that start with a byte order mark are read as the
/// encoding of that mark.
pub uninterp spec fn shift_jis_text(bytes: Seq<u8>) -> (Seq<char>, bool);

/// The Shift_JIS bytes that `encoding_rs` writes for a text, and whether the
/// text holds a character that has none.
pub uninterp spec fn shift_jis_bytes(text: Seq<char>) -> (Seq<u8>, bool);

/// `encoding_rs::Encoding::decode` on `SHIFT_JIS`: text and flag are a function
/// of the bytes alone. One byte gives at most three bytes of UTF-8, and three
/// more may stand at the end. The bound on the input keeps the buffers that the
/// call allocates within the address space.
#[verifier::external_body]
pub(crate) fn decode_shift_jis(bytes: &[u8]) -> (decoded: (String, bool))
    requires
        bytes@.len() <= usize::MAX / 256,
    ensures
        (decoded.0@, decoded.1) == shift_jis_text(bytes@),
        encode_utf8(decoded.0@).len() <= 3 * bytes@.len() + 3,
{
    let (text, _, had_errors) = encoding_rs::SHIFT_JIS.decode(bytes);
    (text.into_owned(), had_errors)
}

/// `encoding_rs::Encoding::encode` on `SHIFT_JIS`: bytes and flag are a function
/// of the text alone. The bound on the input keeps the buffers that the call
/// allocates within the address space.
#[verifier::external_body]
pub(crate) fn encode_shift_jis(text: &str) -> (encoded: (Vec<u8>, bool))
    requires
        encode_utf8(text@).len() <= usize::MAX / 64,
    ensures
        (encoded.0@, encoded.1) == shift_jis_bytes(text@),
{
    let (bytes, _, had_unmappable) = encoding_rs::SHIFT_JIS.encode(text);
    (bytes.into_owned(), had_unmappable)
}

/// `String::push`: appends the character.
pub assume_specification[ String::push ](string: &mut String, ch: char)
    ensures
        final(string)@ == old(string)@.push(ch),
;

/// `String::from_utf8`: the text of the bytes where they are UTF-8, and an error
/// where they are not. Of the error nothing is kept.
#[verifier::external_body]
pub(crate) fn string_from_utf8(bytes: Vec<u8>) -> (text: Option<String>)
    ensures
        match text {
            Some(text) => valid_utf8(bytes@) && text@ == decode_utf8(bytes@),
            None => !valid_utf8(bytes@),
        },
{
    String::from_utf8(bytes).ok()
}

/// The text that std reads from bytes that need not be UTF-8.
pub uninterp spec fn utf8_lossy(bytes: Seq<u8>) -> Seq<char>;

/// `String::from_utf8_lossy`: a function of the bytes alone, and the plain text
/// where they are UTF-8.
#[verifier::external_body]
pub(crate) fn string_from_utf8_lossy(bytes: &[u8]) -> (text: String)
    ensures
        text@ == utf8_lossy(bytes@),
        valid_utf8(bytes@) ==> text@ == decode_utf8(bytes@),
{
    String::from_utf8_lossy(bytes).into_owned()
}

/// The text in lower case, as std has it.
pub uninterp spec fn lowercase(text: Seq<char>) -> Seq<char>;

/// The lower case of an ASCII character.
pub open spec fn ascii_lower(ch: char) -> char {
    if 'A' <= ch <= 'Z' {
        (ch as u32 + 32) as char
    } else {
        ch
    }
}

/// `str::to_lowercase`: a function of the text alone; ASCII text is lowered
/// character by character.
pub assume_specification[ str::to_lowercase ](text: &str) -> (lowered: String)
    ensures
        lowered@ == lowercase(text@),
        (forall|i: int| 0 <= i < text@.len() ==> (#[trigger] text@[i] as u32) < 128)
            ==> lowered@ == text@.map_values(|ch: char| ascii_lower(ch)),
;

} // verus!
