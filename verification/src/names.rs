//! Entry names: how they are read from bytes, and what a name may be.

use vstd::prelude::*;
use vstd::utf8::{decode_utf8, valid_utf8};

use crate::error::CoZipError;
use crate::le::{copy_range, same_bytes};
use crate::trusted::{
    decode_shift_jis, encode_shift_jis, shift_jis_bytes, shift_jis_text, string_from_utf8,
    string_from_utf8_lossy, utf8_lossy,
};

verus! {

/// The characters of code page 437 above ASCII.
pub const CP437_HIGH_CHARS: [char; 128] = [
    'Ç', 'ü', 'é', 'â', 'ä', 'à', 'å', 'ç', 'ê', 'ë', 'è', 'ï', 'î', 'ì', 'Ä', 'Å',
    'É', 'æ', 'Æ', 'ô', 'ö', 'ò', 'û', 'ù', 'ÿ', 'Ö', 'Ü', '¢', '£', '¥', '₧', 'ƒ',
    'á', 'í', 'ó', 'ú', 'ñ', 'Ñ', 'ª', 'º', '¿', '⌐', '¬', '½', '¼', '¡', '«', '»',
    '░', '▒', '▓', '│', '┤', '╡', '╢', '╖', '╕', '╣', '║', '╗', '╝', '╜', '╛', '┐',
    '└', '┴', '┬', '├', '─', '┼', '╞', '╟', '╚', '╔', '╩', '╦', '╠', '═', '╬', '╧',
    '╨', '╤', '╥', '╙', '╘', '╒', '╓', '╫', '╪', '┘', '┌', '█', '▄', '▌', '▐', '▀',
    'α', 'ß', 'Γ', 'π', 'Σ', 'σ', 'µ', 'τ', 'Φ', 'Θ', 'Ω', 'δ', '∞', 'φ', 'ε', '∩',
    '≡', '±', '≥', '≤', '⌠', '⌡', '÷', '≈', '°', '∙', '·', '√', 'ⁿ', '²', '■', '\u{00A0}',
];

/// The character of code page 437 for a byte.
pub open spec fn cp437_char(byte: u8) -> char {
    if byte < 0x80 {
        byte as char
    } else {
        CP437_HIGH_CHARS[byte - 0x80]
    }
}

/// Reads bytes as code page 437.
pub fn decode_cp437(bytes: &[u8]) -> (text: String)
    ensures
        text@ == bytes@.map_values(|byte: u8| cp437_char(byte)),
{
    let mut text = String::new();
    let mut i: usize = 0;
    while i < bytes.len()
        invariant
            i <= bytes@.len(),
            text@ == bytes@.take(i as int).map_values(|byte: u8| cp437_char(byte)),
        decreases bytes@.len() - i,
    {
        let byte: u8 = bytes[i];
        let ch: char = if byte < 0x80 {
            byte as char
        } else {
            CP437_HIGH_CHARS[(byte - 0x80) as usize]
        };
        text.push(ch);
        i = i + 1;
        assert(text@ =~= bytes@.take(i as int).map_values(|byte: u8| cp437_char(byte)));
    }
    assert(bytes@.take(i as int) =~= bytes@);
    text
}

/// A character of the blocks that Japanese text is written in: kana, kanji,
/// half-width and full-width forms.
pub open spec fn is_japanese(ch: char) -> bool {
    let code = ch as u32;
    ||| 0x3040 <= code <= 0x30FF
    ||| 0x31F0 <= code <= 0x31FF
    ||| 0x3400 <= code <= 0x4DBF
    ||| 0x4E00 <= code <= 0x9FFF
    ||| 0xFF61 <= code <= 0xFF9F
    ||| 0xFFE0 <= code <= 0xFFEE
}

/// The text holds a character of a Japanese block.
pub open spec fn has_japanese(text: Seq<char>) -> bool {
    exists|i: int| 0 <= i < text.len() && is_japanese(#[trigger] text[i])
}

/// The characters of a text.
pub fn chars_of(text: &str) -> (chars: Vec<char>)
    ensures
        chars@ == text@,
{
    let mut chars: Vec<char> = Vec::new();
    for ch in iter: text.chars()
        invariant
            iter.seq() == text@,
            chars@ == text@.take(iter.index()),
    {
        chars.push(ch);
        assert(chars@ =~= text@.take(iter.index() + 1));
    }
    assert(text@.take(text@.len() as int) =~= text@);
    chars
}

/// Whether a text holds a character of a Japanese block.
pub fn contains_probably_japanese_text(text: &str) -> (found: bool)
    ensures
        found == has_japanese(text@),
{
    let chars = chars_of(text);
    let mut i: usize = 0;
    while i < chars.len()
        invariant
            i <= chars@.len(),
            chars@ == text@,
            forall|j: int| 0 <= j < i ==> !is_japanese(#[trigger] text@[j]),
        decreases chars@.len() - i,
    {
        let code: u32 = chars[i] as u32;
        if (0x3040 <= code && code <= 0x30FF) || (0x31F0 <= code && code <= 0x31FF) || (0x3400
            <= code && code <= 0x4DBF) || (0x4E00 <= code && code <= 0x9FFF) || (0xFF61 <= code
            && code <= 0xFF9F) || (0xFFE0 <= code && code <= 0xFFEE) {
            assert(is_japanese(text@[i as int]));
            return true;
        }
        i = i + 1;
    }
    false
}

/// The text of bytes that are taken for Shift_JIS: they decode without an error,
/// the text encodes back to them, and it holds Japanese characters.
pub open spec fn shift_jis_name(bytes: Seq<u8>) -> Option<Seq<char>> {
    let (text, had_errors) = shift_jis_text(bytes);
    let (encoded, had_unmappable) = shift_jis_bytes(text);
    if !had_errors && !had_unmappable && encoded == bytes && has_japanese(text) {
        Some(text)
    } else {
        None
    }
}

/// Whether a decoded text stands for the bytes it was decoded from: no error on
/// the way there and back, the same bytes, and Japanese characters in it.
pub fn accept_shift_jis(
    bytes: &[u8],
    text: &str,
    had_errors: bool,
    encoded: &[u8],
    had_unmappable: bool,
) -> (accepted: bool)
    ensures
        accepted == (!had_errors && !had_unmappable && encoded@ == bytes@ && has_japanese(text@)),
{
    !had_errors && !had_unmappable && same_bytes(encoded, bytes) && contains_probably_japanese_text(
        text,
    )
}

/// Reads bytes as Shift_JIS where they can be taken for it.
fn try_shift_jis(bytes: &[u8]) -> (name: Option<String>)
    requires
        bytes@.len() <= usize::MAX / 256,
    ensures
        match name {
            Some(name) => shift_jis_name(bytes@) == Some(name@),
            None => shift_jis_name(bytes@) is None,
        },
{
    let (text, had_errors) = decode_shift_jis(bytes);
    let (encoded, had_unmappable) = encode_shift_jis(text.as_str());
    if accept_shift_jis(bytes, text.as_str(), had_errors, encoded.as_slice(), had_unmappable) {
        Some(text)
    } else {
        None
    }
}

/// The general purpose flags say that the name is UTF-8.
pub open spec fn utf8_flagged(gp_flags: u16) -> bool {
    gp_flags / 0x800 % 2 == 1
}

/// The name that the bytes in a header stand for. A name that is flagged as
/// UTF-8 must be UTF-8; any other is read as UTF-8, as Shift_JIS or as code page
/// 437, whichever comes first.
pub open spec fn entry_name(bytes: Seq<u8>, gp_flags: u16) -> Result<Seq<char>, CoZipError> {
    if valid_utf8(bytes) {
        Ok(decode_utf8(bytes))
    } else if utf8_flagged(gp_flags) {
        Err(CoZipError::NonUtf8Name)
    } else {
        match shift_jis_name(bytes) {
            Some(text) => Ok(text),
            None => Ok(bytes.map_values(|byte: u8| cp437_char(byte))),
        }
    }
}

/// Reads the name in a header.
pub fn decode_zip_entry_name(name_bytes: &[u8], gp_flags: u16) -> (r: Result<String, CoZipError>)
    requires
        name_bytes@.len() <= usize::MAX / 256,
    ensures
        match r {
            Ok(name) => entry_name(name_bytes@, gp_flags) == Ok::<Seq<char>, CoZipError>(name@),
            Err(error) => entry_name(name_bytes@, gp_flags) == Err::<Seq<char>, CoZipError>(error),
        },
{
    let owned = copy_range(name_bytes, 0, name_bytes.len());
    assert(owned@ =~= name_bytes@);
    if let Some(name) = string_from_utf8(owned) {
        return Ok(name);
    }
    if gp_flags / 0x800 % 2 == 1 {
        return Err(CoZipError::NonUtf8Name);
    }
    match try_shift_jis(name_bytes) {
        Some(name) => Ok(name),
        None => Ok(decode_cp437(name_bytes)),
    }
}

/// The name of a file whose name on disk is not UTF-8.
pub open spec fn unix_file_name(bytes: Seq<u8>) -> Result<Seq<char>, CoZipError> {
    if bytes.len() == 0 {
        Err(CoZipError::InvalidEntryName("entry name is empty"))
    } else {
        match shift_jis_name(bytes) {
            Some(text) => Ok(text),
            None => Ok(utf8_lossy(bytes)),
        }
    }
}

/// Reads a file name that is not UTF-8: as Shift_JIS where it can be taken for
/// it, else with replacement characters.
pub fn decode_unix_filename_bytes(bytes: &[u8]) -> (r: Result<String, CoZipError>)
    requires
        bytes@.len() <= usize::MAX / 256,
    ensures
        match r {
            Ok(name) => unix_file_name(bytes@) == Ok::<Seq<char>, CoZipError>(name@),
            Err(error) => unix_file_name(bytes@) == Err::<Seq<char>, CoZipError>(error),
        },
{
    if bytes.len() == 0 {
        return Err(CoZipError::InvalidEntryName("entry name is empty"));
    }
    match try_shift_jis(bytes) {
        Some(name) => Ok(name),
        None => Ok(string_from_utf8_lossy(bytes)),
    }
}

/// The name that one component of a path on disk gets in an archive.
pub open spec fn path_part_name(bytes: Seq<u8>) -> Result<Seq<char>, CoZipError> {
    if valid_utf8(bytes) {
        Ok(decode_utf8(bytes))
    } else {
        unix_file_name(bytes)
    }
}

/// Names one component of a path on disk.
pub fn zip_name_part_from_os_str(part: &[u8]) -> (r: Result<String, CoZipError>)
    requires
        part@.len() <= usize::MAX / 256,
    ensures
        match r {
            Ok(name) => path_part_name(part@) == Ok::<Seq<char>, CoZipError>(name@),
            Err(error) => path_part_name(part@) == Err::<Seq<char>, CoZipError>(error),
        },
{
    let owned = copy_range(part, 0, part.len());
    assert(owned@ =~= part@);
    match string_from_utf8(owned) {
        Some(name) => Ok(name),
        None => decode_unix_filename_bytes(part),
    }
}

/// A code point of the Unicode blocks for kana (U+3040 to U+30FF), the phonetic
/// extensions of katakana (U+31F0 to U+31FF), the first extension of the ideographs
/// (U+3400 to U+4DBF), the ideographs (U+4E00 to U+9FFF), half-width katakana (U+FF61
/// to U+FF9F) and full-width signs (U+FFE0 to U+FFEE).
pub open spec fn in_japanese_block(code: u32) -> bool {
    ||| 0x3040 <= code < 0x3100
    ||| 0x31F0 <= code < 0x3200
    ||| 0x3400 <= code < 0x4DC0
    ||| 0x4E00 <= code < 0xA000
    ||| 0xFF61 <= code < 0xFFA0
    ||| 0xFFE0 <= code < 0xFFEF
}

/// A text is taken for Japanese exactly where it holds a character of the Japanese
/// blocks, wherever in the text that stands.
pub proof fn law_japanese_text_is_told_by_its_blocks(text: &str, found: bool)
    requires
        call_ensures(contains_probably_japanese_text, (text,), found),
    ensures
        found <==> exists|i: int| 0 <= i < text@.len() && in_japanese_block(#[trigger] text@[i] as u32),
{
    if found {
        let i = choose|i: int| 0 <= i < text@.len() && is_japanese(#[trigger] text@[i]);
        assert(in_japanese_block(text@[i] as u32));
    }
    assert forall|i: int|
        0 <= i < text@.len() && in_japanese_block(#[trigger] text@[i] as u32) implies is_japanese(
        text@[i],
    ) by {}
}

/// The Unicode code points of code page 437 from byte 0x80 on.
pub open spec fn cp437_code_points() -> Seq<u32> {
    seq![
        0x00C7u32, 0x00FC, 0x00E9, 0x00E2, 0x00E4, 0x00E0, 0x00E5, 0x00E7,
        0x00EA, 0x00EB, 0x00E8, 0x00EF, 0x00EE, 0x00EC, 0x00C4, 0x00C5,
        0x00C9, 0x00E6, 0x00C6, 0x00F4, 0x00F6, 0x00F2, 0x00FB, 0x00F9,
        0x00FF, 0x00D6, 0x00DC, 0x00A2, 0x00A3, 0x00A5, 0x20A7, 0x0192,
        0x00E1, 0x00ED, 0x00F3, 0x00FA, 0x00F1, 0x00D1, 0x00AA, 0x00BA,
        0x00BF, 0x2310, 0x00AC, 0x00BD, 0x00BC, 0x00A1, 0x00AB, 0x00BB,
        0x2591, 0x2592, 0x2593, 0x2502, 0x2524, 0x2561, 0x2562, 0x2556,
        0x2555, 0x2563, 0x2551, 0x2557, 0x255D, 0x255C, 0x255B, 0x2510,
        0x2514, 0x2534, 0x252C, 0x251C, 0x2500, 0x253C, 0x255E, 0x255F,
        0x255A, 0x2554, 0x2569, 0x2566, 0x2560, 0x2550, 0x256C, 0x2567,
        0x2568, 0x2564, 0x2565, 0x2559, 0x2558, 0x2552, 0x2553, 0x256B,
        0x256A, 0x2518, 0x250C, 0x2588, 0x2584, 0x258C, 0x2590, 0x2580,
        0x03B1, 0x00DF, 0x0393, 0x03C0, 0x03A3, 0x03C3, 0x00B5, 0x03C4,
        0x03A6, 0x0398, 0x03A9, 0x03B4, 0x221E, 0x03C6, 0x03B5, 0x2229,
        0x2261, 0x00B1, 0x2265, 0x2264, 0x2320, 0x2321, 0x00F7, 0x2248,
        0x00B0, 0x2219, 0x00B7, 0x221A, 0x207F, 0x00B2, 0x25A0, 0x00A0,
    ]
}

/// Every byte of code page 437 above ASCII stands for its Unicode code point.
proof fn lemma_cp437_code_points(byte: u8)
    requires
        byte >= 0x80,
    ensures
        cp437_char(byte) as u32 == cp437_code_points()[byte - 0x80],
{
}

/// What Shift_JIS makes of bytes stands for them: it decodes them without an error,
/// encodes the text back to the very same bytes, and the text holds a character of
/// the Japanese blocks.
pub open spec fn reads_as_shift_jis(bytes: Seq<u8>) -> bool {
    let text = shift_jis_text(bytes).0;
    &&& !shift_jis_text(bytes).1
    &&& shift_jis_bytes(text) == (bytes, false)
    &&& exists|i: int| 0 <= i < text.len() && in_japanese_block(#[trigger] text[i] as u32)
}

proof fn lemma_reads_as_shift_jis(bytes: Seq<u8>)
    ensures
        shift_jis_name(bytes) == if reads_as_shift_jis(bytes) {
            Some(shift_jis_text(bytes).0)
        } else {
            None
        },
{
    let text = shift_jis_text(bytes).0;
    assert(has_japanese(text) == exists|i: int|
        0 <= i < text.len() && in_japanese_block(#[trigger] text[i] as u32)) by {
        if has_japanese(text) {
            let i = choose|i: int| 0 <= i < text.len() && is_japanese(#[trigger] text[i]);
            assert(in_japanese_block(text[i] as u32));
        }
        assert forall|i: int|
            0 <= i < text.len() && in_japanese_block(#[trigger] text[i] as u32) implies is_japanese(
            text[i],
        ) by {}
    }
}

/// A name in a header is read as UTF-8 wherever it is UTF-8. A name that is not is
/// refused where bit 11 of the flags promises UTF-8; without that bit it is the
/// Shift_JIS text where the bytes read as such, and else has one character for each
/// byte: ASCII as it is, and the code points of code page 437 above.
pub proof fn law_legacy_names_are_read(
    name_bytes: &[u8],
    gp_flags: u16,
    r: Result<String, CoZipError>,
)
    requires
        call_ensures(decode_zip_entry_name, (name_bytes, gp_flags), r),
    ensures
        valid_utf8(name_bytes@) ==> (r matches Ok(name) && name@ == decode_utf8(name_bytes@)),
        !valid_utf8(name_bytes@) && gp_flags & 0x0800 != 0 ==> r == Err::<String, CoZipError>(
            CoZipError::NonUtf8Name,
        ),
        !valid_utf8(name_bytes@) && gp_flags & 0x0800 == 0 && reads_as_shift_jis(name_bytes@) ==> (
        r matches Ok(name) && name@ == shift_jis_text(name_bytes@).0),
        !valid_utf8(name_bytes@) && gp_flags & 0x0800 == 0 && !reads_as_shift_jis(name_bytes@) ==> {
            &&& r matches Ok(name)
            &&& name@.len() == name_bytes@.len()
            &&& forall|i: int|
                0 <= i < name@.len() ==> #[trigger] name@[i] as u32 == if name_bytes@[i] < 0x80 {
                    name_bytes@[i] as u32
                } else {
                    cp437_code_points()[name_bytes@[i] - 0x80]
                }
        },
{
    assert((gp_flags / 0x800 % 2 == 1) == (gp_flags & 0x0800 != 0)) by (bit_vector);
    lemma_reads_as_shift_jis(name_bytes@);
    if !valid_utf8(name_bytes@) && gp_flags & 0x0800 == 0 && !reads_as_shift_jis(name_bytes@) {
        let name = r->Ok_0;
        assert forall|i: int| 0 <= i < name@.len() implies #[trigger] name@[i] as u32 == (
        if name_bytes@[i] < 0x80 {
            name_bytes@[i] as u32
        } else {
            cp437_code_points()[name_bytes@[i] - 0x80]
        }) by {
            if name_bytes@[i] >= 0x80 {
                lemma_cp437_code_points(name_bytes@[i]);
            }
        }
    }
}

/// A component of a path on disk keeps its name where that is UTF-8. Else it is the
/// Shift_JIS text where the bytes read as such, and a text with replacement
/// characters where they do not.
pub proof fn law_disk_names_are_read(part: &[u8], r: Result<String, CoZipError>)
    requires
        call_ensures(zip_name_part_from_os_str, (part,), r),
    ensures
        valid_utf8(part@) ==> (r matches Ok(name) && name@ == decode_utf8(part@)),
        !valid_utf8(part@) && reads_as_shift_jis(part@) ==> (r matches Ok(name) && name@
            == shift_jis_text(part@).0),
        !valid_utf8(part@) && !reads_as_shift_jis(part@) ==> (r matches Ok(name) && name@
            == utf8_lossy(part@)),
{
    lemma_reads_as_shift_jis(part@);
    if part@.len() == 0 {
        assert(part@ =~= Seq::<u8>::empty());
        assert(valid_utf8(part@));
    }
}

/// A file name on disk that is not UTF-8 is read as the same component of a path is, and
/// an empty one is refused.
pub proof fn law_file_names_are_read_as_components(
    bytes: &[u8],
    r: Result<String, CoZipError>,
    part: Result<String, CoZipError>,
)
    requires
        call_ensures(decode_unix_filename_bytes, (bytes,), r),
        call_ensures(zip_name_part_from_os_str, (bytes,), part),
    ensures
        bytes@.len() == 0 ==> r is Err,
        !valid_utf8(bytes@) ==> match r {
            Ok(name) => part matches Ok(other) && other@ == name@,
            Err(error) => part == Err::<String, CoZipError>(error),
        },
{
}

} // verus!
