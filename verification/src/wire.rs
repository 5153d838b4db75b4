//! Reading the front of a byte slice: fixed-width big-endian numbers and
//! null-terminated text.

use crate::text::{text_from_bytes, text_of};
use vstd::prelude::*;

verus! {

/// Why a frame cannot be read.
#[derive(Debug, Clone, Copy, PartialEq, Eq, Structural)]
pub enum FrameError {
    /// The frame ends inside a value.
    Truncated,
    /// A null-terminated text has no null byte.
    MissingTerminator,
    /// A tuple of another type stands where a message must hold its row.
    UnexpectedTuple(u8),
    /// No relation with this id has been announced.
    UnknownRelation(u32),
    /// A column value in a format that is not known.
    UnknownFormat(u8),
    /// An update without its new row.
    MissingNewTuple,
}

/// What reading the front of some bytes gives: a value and the bytes after it.
pub type Reading<T> = Result<(T, Seq<u8>), FrameError>;

/// The first two bytes as a big-endian number.
pub open spec fn be_u16(b: Seq<u8>) -> u16 {
    (b[0] * 0x100 + b[1]) as u16
}

/// The first four bytes as a big-endian number.
pub open spec fn be_u32(b: Seq<u8>) -> u32 {
    (b[0] * 0x100_0000 + b[1] * 0x1_0000 + b[2] * 0x100 + b[3]) as u32
}

/// The first four bytes as a big-endian number in two's complement.
pub open spec fn be_i32(b: Seq<u8>) -> i32 {
    if be_u32(b) < 0x8000_0000 {
        be_u32(b) as i32
    } else {
        (be_u32(b) - 0x1_0000_0000) as i32
    }
}

/// The first eight bytes as a big-endian number.
pub open spec fn be_u64(b: Seq<u8>) -> u64 {
    (be_u32(b) * 0x1_0000_0000 + be_u32(b.skip(4))) as u64
}

/// One byte, then the rest.
pub open spec fn read_u8(d: Seq<u8>) -> Reading<u8> {
    if d.len() < 1 {
        Err(FrameError::Truncated)
    } else {
        Ok((d[0], d.skip(1)))
    }
}

/// A 16-bit number, then the rest.
pub open spec fn read_u16(d: Seq<u8>) -> Reading<u16> {
    if d.len() < 2 {
        Err(FrameError::Truncated)
    } else {
        Ok((be_u16(d), d.skip(2)))
    }
}

/// A 32-bit number, then the rest.
pub open spec fn read_u32(d: Seq<u8>) -> Reading<u32> {
    if d.len() < 4 {
        Err(FrameError::Truncated)
    } else {
        Ok((be_u32(d), d.skip(4)))
    }
}

/// A signed 32-bit number, then the rest.
pub open spec fn read_i32(d: Seq<u8>) -> Reading<i32> {
    if d.len() < 4 {
        Err(FrameError::Truncated)
    } else {
        Ok((be_i32(d), d.skip(4)))
    }
}

/// A 64-bit number, then the rest.
pub open spec fn read_u64(d: Seq<u8>) -> Reading<u64> {
    if d.len() < 8 {
        Err(FrameError::Truncated)
    } else {
        Ok((be_u64(d), d.skip(8)))
    }
}

/// `n` bytes, then the rest.
pub open spec fn read_bytes(d: Seq<u8>, n: nat) -> Reading<Seq<u8>> {
    if d.len() < n {
        Err(FrameError::Truncated)
    } else {
        Ok((d.take(n as int), d.skip(n as int)))
    }
}

/// Whether the first null byte of `d` stands at `i`.
pub open spec fn is_first_null(d: Seq<u8>, i: int) -> bool {
    &&& 0 <= i < d.len()
    &&& d[i] == 0
    &&& forall|k: int| 0 <= k < i ==> d[k] != 0
}

/// The text before the first null byte, then what follows that byte.
pub open spec fn read_cstring(d: Seq<u8>) -> Reading<Seq<char>> {
    if d.contains(0) {
        let end = choose|i: int| is_first_null(d, i);
        Ok((text_of(d.take(end)), d.skip(end + 1)))
    } else {
        Err(FrameError::MissingTerminator)
    }
}

/// `Buf::get_u8` on a slice: takes its first byte off. It panics on an empty one.
#[verifier::external_body]
fn get_u8(data: &mut &[u8]) -> (value: u8)
    requires
        old(data)@.len() >= 1,
    ensures
        value == old(data)@[0],
        final(data)@ == old(data)@.skip(1),
{
    bytes::Buf::get_u8(data)
}

/// `Buf::get_u16` on a slice: takes two bytes off as a big-endian number. It
/// panics where there are fewer.
#[verifier::external_body]
fn get_u16(data: &mut &[u8]) -> (value: u16)
    requires
        old(data)@.len() >= 2,
    ensures
        value == be_u16(old(data)@),
        final(data)@ == old(data)@.skip(2),
{
    bytes::Buf::get_u16(data)
}

/// `Buf::get_u32` on a slice: takes four bytes off as a big-endian number. It
/// panics where there are fewer.
#[verifier::external_body]
fn get_u32(data: &mut &[u8]) -> (value: u32)
    requires
        old(data)@.len() >= 4,
    ensures
        value == be_u32(old(data)@),
        final(data)@ == old(data)@.skip(4),
{
    bytes::Buf::get_u32(data)
}

/// `Buf::get_i32` on a slice: takes four bytes off as a big-endian number in two's
/// complement. It panics where there are fewer.
#[verifier::external_body]
fn get_i32(data: &mut &[u8]) -> (value: i32)
    requires
        old(data)@.len() >= 4,
    ensures
        value == be_i32(old(data)@),
        final(data)@ == old(data)@.skip(4),
{
    bytes::Buf::get_i32(data)
}

/// `Buf::get_u64` on a slice: takes eight bytes off as a big-endian number. It
/// panics where there are fewer.
#[verifier::external_body]
fn get_u64(data: &mut &[u8]) -> (value: u64)
    requires
        old(data)@.len() >= 8,
    ensures
        value == be_u64(old(data)@),
        final(data)@ == old(data)@.skip(8),
{
    bytes::Buf::get_u64(data)
}

/// `Buf::advance` on a slice: drops its first `count` bytes. It panics where there
/// are fewer.
#[verifier::external_body]
fn advance(data: &mut &[u8], count: usize)
    requires
        old(data)@.len() >= count,
    ensures
        final(data)@ == old(data)@.skip(count as int),
{
    bytes::Buf::advance(data, count)
}

/// `Buf::has_remaining` on a slice: whether a byte is left.
#[verifier::external_body]
pub(crate) fn has_remaining(data: &&[u8]) -> (more: bool)
    ensures
        more == (data@.len() > 0),
{
    bytes::Buf::has_remaining(data)
}

/// Takes one byte off the front of `data`.
pub fn take_u8(data: &mut &[u8]) -> (value: Result<u8, FrameError>)
    ensures
        match read_u8(old(data)@) {
            Ok((v, rest)) => value == Ok::<u8, FrameError>(v) && final(data)@ == rest,
            Err(e) => value == Err::<u8, FrameError>(e),
        },
{
    if data.len() < 1 {
        return Err(FrameError::Truncated);
    }
    Ok(get_u8(data))
}

/// Takes a 16-bit number off the front of `data`.
pub fn take_u16(data: &mut &[u8]) -> (value: Result<u16, FrameError>)
    ensures
        match read_u16(old(data)@) {
            Ok((v, rest)) => value == Ok::<u16, FrameError>(v) && final(data)@ == rest,
            Err(e) => value == Err::<u16, FrameError>(e),
        },
{
    if data.len() < 2 {
        return Err(FrameError::Truncated);
    }
    Ok(get_u16(data))
}

/// Takes a 32-bit number off the front of `data`.
pub fn take_u32(data: &mut &[u8]) -> (value: Result<u32, FrameError>)
    ensures
        match read_u32(old(data)@) {
            Ok((v, rest)) => value == Ok::<u32, FrameError>(v) && final(data)@ == rest,
            Err(e) => value == Err::<u32, FrameError>(e),
        },
{
    if data.len() < 4 {
        return Err(FrameError::Truncated);
    }
    Ok(get_u32(data))
}

/// Takes a signed 32-bit number off the front of `data`.
pub fn take_i32(data: &mut &[u8]) -> (value: Result<i32, FrameError>)
    ensures
        match read_i32(old(data)@) {
            Ok((v, rest)) => value == Ok::<i32, FrameError>(v) && final(data)@ == rest,
            Err(e) => value == Err::<i32, FrameError>(e),
        },
{
    if data.len() < 4 {
        return Err(FrameError::Truncated);
    }
    Ok(get_i32(data))
}

/// Takes a 64-bit number off the front of `data`.
pub fn take_u64(data: &mut &[u8]) -> (value: Result<u64, FrameError>)
    ensures
        match read_u64(old(data)@) {
            Ok((v, rest)) => value == Ok::<u64, FrameError>(v) && final(data)@ == rest,
            Err(e) => value == Err::<u64, FrameError>(e),
        },
{
    if data.len() < 8 {
        return Err(FrameError::Truncated);
    }
    Ok(get_u64(data))
}

/// Takes `n` bytes off the front of `data` and reads them as text.
pub fn take_text(data: &mut &[u8], n: usize) -> (value: Result<String, FrameError>)
    ensures
        match read_bytes(old(data)@, n as nat) {
            Ok((v, rest)) => value is Ok && value->Ok_0@ == text_of(v) && final(data)@ == rest,
            Err(e) => value == Err::<String, FrameError>(e),
        },
{
    if data.len() < n {
        return Err(FrameError::Truncated);
    }
    let text = text_from_bytes(vstd::slice::slice_subrange(*data, 0, n));
    assert(data@.subrange(0, n as int) =~= data@.take(n as int));
    advance(data, n);
    Ok(text)
}

/// Takes a null-terminated text off the front of `data`, with its null byte.
pub fn parse_cstring(data: &mut &[u8]) -> (value: Result<String, FrameError>)
    ensures
        match read_cstring(old(data)@) {
            Ok((v, rest)) => value is Ok && value->Ok_0@ == v && final(data)@ == rest,
            Err(e) => value == Err::<String, FrameError>(e),
        },
{
    let mut end: usize = 0;
    while end < data.len() && data[end] != 0
        invariant
            data@ == old(data)@,
            end <= data@.len(),
            forall|k: int| 0 <= k < end ==> data@[k] != 0,
        decreases data@.len() - end,
    {
        end = end + 1;
    }
    if end == data.len() {
        return Err(FrameError::MissingTerminator);
    }
    assert(is_first_null(data@, end as int));
    let text = text_from_bytes(vstd::slice::slice_subrange(*data, 0, end));
    assert(data@.subrange(0, end as int) =~= data@.take(end as int));
    advance(data, end + 1);
    Ok(text)
}

/// A null-terminated text ends at its first null byte: what stands before is the text,
/// what stands behind is left, and where there is no null byte nothing is read.
pub proof fn law_text_ends_at_its_first_null(bytes: Seq<u8>, rest: Seq<u8>)
    requires
        forall|i: int| 0 <= i < bytes.len() ==> #[trigger] bytes[i] != 0,
    ensures
        read_cstring(bytes + seq![0u8] + rest) == Ok::<(Seq<char>, Seq<u8>), FrameError>(
            (text_of(bytes), rest),
        ),
        read_cstring(bytes) == Err::<(Seq<char>, Seq<u8>), FrameError>(
            FrameError::MissingTerminator,
        ),
{
    let d = bytes + seq![0u8] + rest;
    let n = bytes.len() as int;
    assert(d[n] == 0);
    assert(d.contains(0));
    assert forall|k: int| 0 <= k < n implies d[k] != 0 by {
        assert(d[k] == bytes[k]);
    }
    assert(is_first_null(d, n));
    let end = choose|i: int| is_first_null(d, i);
    assert(end == n);
    assert(d.take(n) =~= bytes);
    assert(d.skip(n + 1) =~= rest);
}

/// A number is read from as many bytes as it takes, no more and no fewer: with fewer
/// the frame is cut short, and what stands behind them is left as it is.
pub proof fn law_numbers_take_their_bytes(d: Seq<u8>)
    ensures
        d.len() < 1 ==> read_u8(d) == Err::<(u8, Seq<u8>), FrameError>(FrameError::Truncated),
        d.len() >= 1 ==> (read_u8(d) matches Ok((n, rest)) && n == d[0] && rest == d.skip(1)),
        d.len() < 2 ==> read_u16(d) == Err::<(u16, Seq<u8>), FrameError>(FrameError::Truncated),
        d.len() >= 2 ==> (read_u16(d) matches Ok((n, rest)) && n == d[0] * 256 + d[1] && rest
            == d.skip(2)),
        d.len() < 4 ==> read_u32(d) == Err::<(u32, Seq<u8>), FrameError>(FrameError::Truncated),
        d.len() >= 4 ==> (read_u32(d) matches Ok((n, rest)) && n == ((d[0] * 256 + d[1]) * 256
            + d[2]) * 256 + d[3] && rest == d.skip(4)),
        d.len() < 4 ==> read_i32(d) == Err::<(i32, Seq<u8>), FrameError>(FrameError::Truncated),
        d.len() >= 4 ==> (read_i32(d) matches Ok((n, rest)) && (n - be_u32(d)) % 0x1_0000_0000 == 0
            && rest == d.skip(4)),
        d.len() < 8 ==> read_u64(d) == Err::<(u64, Seq<u8>), FrameError>(FrameError::Truncated),
        d.len() >= 8 ==> (read_u64(d) matches Ok((n, rest)) && n == be_u32(d) * 0x1_0000_0000
            + be_u32(d.skip(4)) && rest == d.skip(8)),
{
}

}
