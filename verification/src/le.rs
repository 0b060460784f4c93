//! Little-endian integers in byte sequences.

use vstd::prelude::*;

use crate::error::CoZipError;

verus! {

/// The 16-bit integer whose bytes stand at `at`, lowest first.
pub open spec fn le16(s: Seq<u8>, at: int) -> u16 {
    (s[at] + 0x100 * s[at + 1]) as u16
}

/// The 32-bit integer whose bytes stand at `at`, lowest first.
pub open spec fn le32(s: Seq<u8>, at: int) -> u32 {
    (s[at] + 0x100 * s[at + 1] + 0x1_0000 * s[at + 2] + 0x100_0000 * s[at + 3]) as u32
}

/// The 64-bit integer whose bytes stand at `at`, lowest first.
pub open spec fn le64(s: Seq<u8>, at: int) -> u64 {
    (le32(s, at) + 0x1_0000_0000 * le32(s, at + 4)) as u64
}

/// The two bytes of a 16-bit integer, lowest first.
#[verifier::opaque]
pub open spec fn u16_le(v: u16) -> Seq<u8> {
    seq![(v % 0x100) as u8, (v / 0x100) as u8]
}

/// The four bytes of a 32-bit integer, lowest first.
#[verifier::opaque]
pub open spec fn u32_le(v: u32) -> Seq<u8> {
    seq![
        (v % 0x100) as u8,
        (v / 0x100 % 0x100) as u8,
        (v / 0x1_0000 % 0x100) as u8,
        (v / 0x100_0000) as u8,
    ]
}

/// The eight bytes of a 64-bit integer, lowest first.
#[verifier::opaque]
pub open spec fn u64_le(v: u64) -> Seq<u8> {
    u32_le((v % 0x1_0000_0000) as u32) + u32_le((v / 0x1_0000_0000) as u32)
}

/// A 16-bit integer takes two bytes.
pub broadcast proof fn lemma_u16_le_len(v: u16)
    ensures
        #[trigger] u16_le(v).len() == 2,
{
    reveal(u16_le);
}

/// A 32-bit integer takes four bytes.
pub broadcast proof fn lemma_u32_le_len(v: u32)
    ensures
        #[trigger] u32_le(v).len() == 4,
{
    reveal(u32_le);
}

/// A 64-bit integer takes eight bytes.
pub broadcast proof fn lemma_u64_le_len(v: u64)
    ensures
        #[trigger] u64_le(v).len() == 8,
{
    reveal(u64_le);
    reveal(u32_le);
}

/// The lengths of integers in bytes.
pub broadcast group group_le_len {
    lemma_u16_le_len,
    lemma_u32_le_len,
    lemma_u64_le_len,
}

/// Reading back a 16-bit integer that was written at `at`.
pub proof fn lemma_le16(s: Seq<u8>, at: int, v: u16)
    requires
        0 <= at,
        at + 2 <= s.len(),
        s.subrange(at, at + 2) == u16_le(v),
    ensures
        le16(s, at) == v,
{
    reveal(u16_le);
    let t = s.subrange(at, at + 2);
    assert(s[at] == t[0]);
    assert(s[at + 1] == t[1]);
}

/// Reading back a 32-bit integer that was written at `at`.
pub proof fn lemma_le32(s: Seq<u8>, at: int, v: u32)
    requires
        0 <= at,
        at + 4 <= s.len(),
        s.subrange(at, at + 4) == u32_le(v),
    ensures
        le32(s, at) == v,
{
    reveal(u32_le);
    let t = s.subrange(at, at + 4);
    assert(s[at] == t[0]);
    assert(s[at + 1] == t[1]);
    assert(s[at + 2] == t[2]);
    assert(s[at + 3] == t[3]);
}

/// Reading back a 64-bit integer that was written at `at`.
pub proof fn lemma_le64(s: Seq<u8>, at: int, v: u64)
    requires
        0 <= at,
        at + 8 <= s.len(),
        s.subrange(at, at + 8) == u64_le(v),
    ensures
        le64(s, at) == v,
{
    reveal(u64_le);
    broadcast use lemma_u32_le_len;

    let low = (v % 0x1_0000_0000) as u32;
    let high = (v / 0x1_0000_0000) as u32;
    let t = s.subrange(at, at + 8);
    assert(s.subrange(at, at + 4) =~= t.subrange(0, 4));
    assert(s.subrange(at + 4, at + 8) =~= t.subrange(4, 8));
    assert(u64_le(v).subrange(0, 4) =~= u32_le(low));
    assert(u64_le(v).subrange(4, 8) =~= u32_le(high));
    lemma_le32(s, at, low);
    lemma_le32(s, at + 4, high);
}

/// The 16-bit integer at `at`. The caller has checked the range.
pub fn get_u16(bytes: &[u8], at: usize) -> (v: u16)
    requires
        at + 2 <= bytes.len(),
    ensures
        v == le16(bytes@, at as int),
{
    bytes[at] as u16 + 0x100 * bytes[at + 1] as u16
}

/// The 32-bit integer at `at`. The caller has checked the range.
pub fn get_u32(bytes: &[u8], at: usize) -> (v: u32)
    requires
        at + 4 <= bytes.len(),
    ensures
        v == le32(bytes@, at as int),
{
    bytes[at] as u32 + 0x100 * bytes[at + 1] as u32 + 0x1_0000 * bytes[at + 2] as u32 + 0x100_0000
        * bytes[at + 3] as u32
}

/// The 64-bit integer at `at`. The caller has checked the range.
pub fn get_u64(bytes: &[u8], at: usize) -> (v: u64)
    requires
        at + 8 <= bytes.len(),
    ensures
        v == le64(bytes@, at as int),
{
    let next: usize = at + 4;
    get_u32(bytes, at) as u64 + 0x1_0000_0000 * get_u32(bytes, next) as u64
}

/// What reading a 16-bit integer at `offset` gives.
pub open spec fn read_u16_result(s: Seq<u8>, offset: int) -> Result<u16, CoZipError> {
    if offset + 2 > usize::MAX {
        Err(CoZipError::InvalidZip("u16 overflow"))
    } else if offset + 2 > s.len() {
        Err(CoZipError::InvalidZip("u16 out of range"))
    } else {
        Ok(le16(s, offset))
    }
}

/// What reading a 32-bit integer at `offset` gives.
pub open spec fn read_u32_result(s: Seq<u8>, offset: int) -> Result<u32, CoZipError> {
    if offset + 4 > usize::MAX {
        Err(CoZipError::InvalidZip("u32 overflow"))
    } else if offset + 4 > s.len() {
        Err(CoZipError::InvalidZip("u32 out of range"))
    } else {
        Ok(le32(s, offset))
    }
}

/// What reading a 64-bit integer at `offset` gives.
pub open spec fn read_u64_result(s: Seq<u8>, offset: int) -> Result<u64, CoZipError> {
    if offset + 8 > usize::MAX {
        Err(CoZipError::InvalidZip("u64 overflow"))
    } else if offset + 8 > s.len() {
        Err(CoZipError::InvalidZip("u64 out of range"))
    } else {
        Ok(le64(s, offset))
    }
}

/// Reads the 16-bit integer at `offset`.
pub fn read_u16(bytes: &[u8], offset: usize) -> (r: Result<u16, CoZipError>)
    ensures
        r == read_u16_result(bytes@, offset as int),
{
    match offset.checked_add(2) {
        None => Err(CoZipError::InvalidZip("u16 overflow")),
        Some(end) => if end > bytes.len() {
            Err(CoZipError::InvalidZip("u16 out of range"))
        } else {
            Ok(get_u16(bytes, offset))
        },
    }
}

/// Reads the 32-bit integer at `offset`.
pub fn read_u32(bytes: &[u8], offset: usize) -> (r: Result<u32, CoZipError>)
    ensures
        r == read_u32_result(bytes@, offset as int),
{
    match offset.checked_add(4) {
        None => Err(CoZipError::InvalidZip("u32 overflow")),
        Some(end) => if end > bytes.len() {
            Err(CoZipError::InvalidZip("u32 out of range"))
        } else {
            Ok(get_u32(bytes, offset))
        },
    }
}

/// Reads the 64-bit integer at `offset`.
pub fn read_u64(bytes: &[u8], offset: usize) -> (r: Result<u64, CoZipError>)
    ensures
        r == read_u64_result(bytes@, offset as int),
{
    match offset.checked_add(8) {
        None => Err(CoZipError::InvalidZip("u64 overflow")),
        Some(end) => if end > bytes.len() {
            Err(CoZipError::InvalidZip("u64 out of range"))
        } else {
            Ok(get_u64(bytes, offset))
        },
    }
}

/// Appends a 16-bit integer.
pub fn write_u16(out: &mut Vec<u8>, value: u16)
    ensures
        final(out)@ == old(out)@ + u16_le(value),
{
    out.push((value % 0x100) as u8);
    out.push((value / 0x100) as u8);
    reveal(u16_le);
    assert(out@ =~= old(out)@ + u16_le(value));
}

/// Appends a 32-bit integer.
pub fn write_u32(out: &mut Vec<u8>, value: u32)
    ensures
        final(out)@ == old(out)@ + u32_le(value),
{
    out.push((value % 0x100) as u8);
    out.push((value / 0x100 % 0x100) as u8);
    out.push((value / 0x1_0000 % 0x100) as u8);
    out.push((value / 0x100_0000) as u8);
    reveal(u32_le);
    assert(out@ =~= old(out)@ + u32_le(value));
}

/// Appends a 64-bit integer.
pub fn write_u64(out: &mut Vec<u8>, value: u64)
    ensures
        final(out)@ == old(out)@ + u64_le(value),
{
    write_u32(out, (value % 0x1_0000_0000) as u32);
    write_u32(out, (value / 0x1_0000_0000) as u32);
    reveal(u64_le);
    assert(out@ =~= old(out)@ + u64_le(value));
}

/// Appends bytes.
pub fn write_bytes(out: &mut Vec<u8>, bytes: &[u8])
    ensures
        final(out)@ == old(out)@ + bytes@,
{
    out.extend_from_slice(bytes);
    assert(out@ =~= old(out)@ + bytes@);
}

/// Copies the bytes from `start` up to `end`.
pub fn copy_range(bytes: &[u8], start: usize, end: usize) -> (out: Vec<u8>)
    requires
        start <= end <= bytes@.len(),
    ensures
        out@ == bytes@.subrange(start as int, end as int),
{
    let mut out: Vec<u8> = Vec::with_capacity(end - start);
    write_bytes(&mut out, &bytes[start..end]);
    assert(out@ =~= bytes@.subrange(start as int, end as int));
    out
}

/// Whether two byte strings are equal.
pub fn same_bytes(a: &[u8], b: &[u8]) -> (same: bool)
    ensures
        same == (a@ == b@),
{
    if a.len() != b.len() {
        return false;
    }
    let mut i: usize = 0;
    while i < a.len()
        invariant
            i <= a@.len(),
            a@.len() == b@.len(),
            forall|j: int| 0 <= j < i ==> a@[j] == b@[j],
        decreases a@.len() - i,
    {
        if a[i] != b[i] {
            return false;
        }
        i = i + 1;
    }
    assert(a@ =~= b@);
    true
}

/// What converting a stored 64-bit length to an index gives.
pub open spec fn usize_from_u64_result(value: u64, message: &'static str) -> Result<
    usize,
    CoZipError,
> {
    if value <= usize::MAX {
        Ok(value as usize)
    } else {
        Err(CoZipError::InvalidZip(message))
    }
}

/// Converts a stored 64-bit length to an index, with `message` where it does not fit.
pub fn usize_from_u64(value: u64, message: &'static str) -> (r: Result<usize, CoZipError>)
    ensures
        r == usize_from_u64_result(value, message),
{
    if value <= usize::MAX as u64 {
        Ok(value as usize)
    } else {
        Err(CoZipError::InvalidZip(message))
    }
}

/// The number that bytes stand for, the first of them counting ones, each next one
/// counting for 256 times as much.
pub open spec fn number(bytes: Seq<u8>) -> nat
    decreases bytes.len(),
{
    if bytes.len() == 0 {
        0
    } else {
        bytes[0] as nat + 256 * number(bytes.drop_first())
    }
}

/// The number of `len` bytes that stand at `at`.
pub open spec fn number_at(bytes: Seq<u8>, at: int, len: int) -> nat {
    number(bytes.subrange(at, at + len))
}

/// Two bytes are read as the number they stand for, lowest first.
pub proof fn law_two_bytes_are_read(s: Seq<u8>, at: int)
    requires
        0 <= at,
        at + 2 <= s.len(),
    ensures
        le16(s, at) == number_at(s, at, 2),
{
    let t = s.subrange(at, at + 2);
    reveal_with_fuel(number, 3);
    assert(t.drop_first().drop_first() =~= Seq::<u8>::empty());
    assert(t[0] == s[at] && t.drop_first()[0] == s[at + 1]);
}

/// Four bytes are read as the number they stand for, lowest first.
pub proof fn law_four_bytes_are_read(s: Seq<u8>, at: int)
    requires
        0 <= at,
        at + 4 <= s.len(),
    ensures
        le32(s, at) == number_at(s, at, 4),
{
    let t = s.subrange(at, at + 4);
    reveal_with_fuel(number, 5);
    let u = t.drop_first();
    let v = u.drop_first();
    let w = v.drop_first();
    assert(w.drop_first() =~= Seq::<u8>::empty());
    assert(t[0] == s[at] && u[0] == s[at + 1] && v[0] == s[at + 2] && w[0] == s[at + 3]);
}

/// Eight bytes are read as the number they stand for, lowest first.
pub proof fn law_eight_bytes_are_read(s: Seq<u8>, at: int)
    requires
        0 <= at,
        at + 8 <= s.len(),
    ensures
        le64(s, at) == number_at(s, at, 8),
{
    law_four_bytes_are_read(s, at);
    law_four_bytes_are_read(s, at + 4);
    let low = s.subrange(at, at + 4);
    let high = s.subrange(at + 4, at + 8);
    lemma_number_parts(low, high);
    assert(low + high =~= s.subrange(at, at + 8));
    assert(vstd::arithmetic::power::pow(256, 4) == 0x1_0000_0000) by {
        reveal_with_fuel(vstd::arithmetic::power::pow, 5);
    }
}

proof fn lemma_number_parts(low: Seq<u8>, high: Seq<u8>)
    ensures
        number(low + high) == number(low) + vstd::arithmetic::power::pow(256, low.len()) * number(
            high,
        ),
    decreases low.len(),
{
    reveal(vstd::arithmetic::power::pow);
    let both = low + high;
    if low.len() == 0 {
        assert(both =~= high);
    } else {
        assert(both.drop_first() =~= low.drop_first() + high);
        lemma_number_parts(low.drop_first(), high);
        let rest = vstd::arithmetic::power::pow(256, (low.len() - 1) as nat);
        assert(vstd::arithmetic::power::pow(256, low.len()) == 256 * rest);
        assert(256 * (rest * number(high)) == (256 * rest) * number(high)) by (nonlinear_arith);
    }
}

/// The number that bytes stand for tells them.
pub proof fn lemma_number_tells(a: Seq<u8>, b: Seq<u8>)
    requires
        a.len() == b.len(),
        number(a) == number(b),
    ensures
        a == b,
    decreases a.len(),
{
    if a.len() > 0 {
        let x = number(a.drop_first());
        let y = number(b.drop_first());
        assert(a[0] as nat + 256 * x == b[0] as nat + 256 * y);
        assert(x == y && a[0] == b[0]);
        lemma_number_tells(a.drop_first(), b.drop_first());
        assert(a =~= seq![a[0]] + a.drop_first());
        assert(b =~= seq![b[0]] + b.drop_first());
    } else {
        assert(a =~= b);
    }
}

/// A number is written as the bytes that stand for it, two, four or eight of them.
pub proof fn law_numbers_are_written(a: u16, b: u32, c: u64)
    ensures
        u16_le(a).len() == 2,
        number(u16_le(a)) == a,
        u32_le(b).len() == 4,
        number(u32_le(b)) == b,
        u64_le(c).len() == 8,
        number(u64_le(c)) == c,
{
    broadcast use group_le_len;

    assert(u16_le(a).subrange(0, 2) =~= u16_le(a));
    assert(u32_le(b).subrange(0, 4) =~= u32_le(b));
    assert(u64_le(c).subrange(0, 8) =~= u64_le(c));
    lemma_le16(u16_le(a), 0, a);
    lemma_le32(u32_le(b), 0, b);
    lemma_le64(u64_le(c), 0, c);
    law_two_bytes_are_read(u16_le(a), 0);
    law_four_bytes_are_read(u32_le(b), 0);
    law_eight_bytes_are_read(u64_le(c), 0);
}

} // verus!
