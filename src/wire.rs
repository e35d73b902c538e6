//! Primitive field codec: big-endian integers and fixed-size byte blocks,
//! read from a forward-only cursor over a byte slice and appended to a
//! growing output buffer.
use byteorder::{BigEndian, ByteOrder};
use vstd::prelude::*;

verus! {

/// Why a decode failed.
#[derive(Debug, Clone, Copy, PartialEq, Eq, Structural)]
pub enum CodecError {
    /// Fewer bytes remain than a fixed-width read requires.
    Truncated,
    /// The packet-type bits name neither telemetry nor telecommand.
    InvalidPacketType,
    /// An uplink command-type tag outside the known set of commands.
    InvalidCommandType,
}

/// The two bytes of `n`, most significant first.
pub open spec fn be_u16_bytes(n: u16) -> Seq<u8> {
    seq![(n / 0x100) as u8, (n % 0x100) as u8]
}

/// The four bytes of `n`, most significant first.
pub open spec fn be_u32_bytes(n: u32) -> Seq<u8> {
    seq![
        (n / 0x100_0000) as u8,
        (n / 0x1_0000 % 0x100) as u8,
        (n / 0x100 % 0x100) as u8,
        (n % 0x100) as u8,
    ]
}

/// The integer whose big-endian form is the first two bytes of `b`.
pub open spec fn be_u16_value(b: Seq<u8>) -> u16 {
    (b[0] * 0x100 + b[1]) as u16
}

/// The integer whose big-endian form is the first four bytes of `b`.
pub open spec fn be_u32_value(b: Seq<u8>) -> u32 {
    (b[0] * 0x100_0000 + b[1] * 0x1_0000 + b[2] * 0x100 + b[3]) as u32
}

pub proof fn lemma_be_u16_round_trip(n: u16, rest: Seq<u8>)
    ensures
        be_u16_bytes(n).len() == 2,
        be_u16_value(be_u16_bytes(n) + rest) == n,
{
    let b = be_u16_bytes(n) + rest;
    assert(b[0] == (n / 0x100) as u8 && b[1] == (n % 0x100) as u8);
}

pub proof fn lemma_be_u32_round_trip(n: u32, rest: Seq<u8>)
    ensures
        be_u32_bytes(n).len() == 4,
        be_u32_value(be_u32_bytes(n) + rest) == n,
{
    let b = be_u32_bytes(n) + rest;
    assert(b[0] == (n / 0x100_0000) as u8);
    assert(b[1] == (n / 0x1_0000 % 0x100) as u8);
    assert(b[2] == (n / 0x100 % 0x100) as u8);
    assert(b[3] == (n % 0x100) as u8);
}

/// Relies on `byteorder::BigEndian::read_u16`, which is
/// `u16::from_be_bytes` of the first two bytes and panics on fewer.
#[verifier::external_body]
fn be_read_u16(buf: &[u8]) -> (r: u16)
    requires
        buf@.len() >= 2,
    ensures
        r == be_u16_value(buf@),
{
    BigEndian::read_u16(buf)
}

/// Relies on `byteorder::BigEndian::read_u32`, which is
/// `u32::from_be_bytes` of the first four bytes and panics on fewer.
#[verifier::external_body]
fn be_read_u32(buf: &[u8]) -> (r: u32)
    requires
        buf@.len() >= 4,
    ensures
        r == be_u32_value(buf@),
{
    BigEndian::read_u32(buf)
}

/// Relies on `byteorder::BigEndian::write_u16`, which copies
/// `n.to_be_bytes()` into the first two bytes of the buffer.
#[verifier::external_body]
fn be_write_u16(n: u16) -> (r: [u8; 2])
    ensures
        r@ == be_u16_bytes(n),
{
    let mut buf = [0u8; 2];
    BigEndian::write_u16(&mut buf, n);
    buf
}

/// Relies on `byteorder::BigEndian::write_u32`, which copies
/// `n.to_be_bytes()` into the first four bytes of the buffer.
#[verifier::external_body]
fn be_write_u32(n: u32) -> (r: [u8; 4])
    ensures
        r@ == be_u32_bytes(n),
{
    let mut buf = [0u8; 4];
    BigEndian::write_u32(&mut buf, n);
    buf
}

/// What remains of `input` from position `pos` on.
pub open spec fn rest(input: Seq<u8>, pos: int) -> Seq<u8> {
    input.subrange(pos, input.len() as int)
}

/// Reads one byte at `*pos` and advances past it.
pub fn read_u8(input: &[u8], pos: &mut usize) -> (r: Result<u8, CodecError>)
    requires
        *old(pos) <= input@.len(),
    ensures
        *old(pos) + 1 <= input@.len() ==> r == Ok::<u8, CodecError>(input@[*old(pos) as int])
            && *final(pos) == *old(pos) + 1,
        *old(pos) + 1 > input@.len() ==> r == Err::<u8, CodecError>(CodecError::Truncated)
            && *final(pos) == *old(pos),
{
    if input.len() - *pos < 1 {
        return Err(CodecError::Truncated);
    }
    let b = input[*pos];
    *pos = *pos + 1;
    Ok(b)
}

/// Reads a big-endian `u16` at `*pos` and advances past it.
pub fn read_u16(input: &[u8], pos: &mut usize) -> (r: Result<u16, CodecError>)
    requires
        *old(pos) <= input@.len(),
    ensures
        *old(pos) + 2 <= input@.len() ==> r == Ok::<u16, CodecError>(
            be_u16_value(rest(input@, *old(pos) as int)),
        ) && *final(pos) == *old(pos) + 2,
        *old(pos) + 2 > input@.len() ==> r == Err::<u16, CodecError>(CodecError::Truncated)
            && *final(pos) == *old(pos),
{
    if input.len() - *pos < 2 {
        return Err(CodecError::Truncated);
    }
    let v = be_read_u16(vstd::slice::slice_subrange(input, *pos, input.len()));
    *pos = *pos + 2;
    Ok(v)
}

/// Reads a big-endian `u32` at `*pos` and advances past it.
pub fn read_u32(input: &[u8], pos: &mut usize) -> (r: Result<u32, CodecError>)
    requires
        *old(pos) <= input@.len(),
    ensures
        *old(pos) + 4 <= input@.len() ==> r == Ok::<u32, CodecError>(
            be_u32_value(rest(input@, *old(pos) as int)),
        ) && *final(pos) == *old(pos) + 4,
        *old(pos) + 4 > input@.len() ==> r == Err::<u32, CodecError>(CodecError::Truncated)
            && *final(pos) == *old(pos),
{
    if input.len() - *pos < 4 {
        return Err(CodecError::Truncated);
    }
    let v = be_read_u32(vstd::slice::slice_subrange(input, *pos, input.len()));
    *pos = *pos + 4;
    Ok(v)
}

/// Appends one byte.
pub fn write_u8(out: &mut Vec<u8>, b: u8)
    ensures
        final(out)@ == old(out)@.push(b),
{
    out.push(b);
}

/// Appends the big-endian form of `n`.
pub fn write_u16(out: &mut Vec<u8>, n: u16)
    ensures
        final(out)@ == old(out)@ + be_u16_bytes(n),
{
    let b = be_write_u16(n);
    out.push(b[0]);
    out.push(b[1]);
    assert(out@ =~= old(out)@ + be_u16_bytes(n));
}

/// Appends the big-endian form of `n`.
pub fn write_u32(out: &mut Vec<u8>, n: u32)
    ensures
        final(out)@ == old(out)@ + be_u32_bytes(n),
{
    let b = be_write_u32(n);
    out.push(b[0]);
    out.push(b[1]);
    out.push(b[2]);
    out.push(b[3]);
    assert(out@ =~= old(out)@ + be_u32_bytes(n));
}

/// Appends every byte of `bytes`, in order.
pub fn write_all(out: &mut Vec<u8>, bytes: &[u8])
    ensures
        final(out)@ == old(out)@ + bytes@,
{
    let mut i: usize = 0;
    while i < bytes.len()
        invariant
            i <= bytes@.len(),
            out@ == old(out)@ + bytes@.subrange(0, i as int),
        decreases bytes@.len() - i,
    {
        out.push(bytes[i]);
        i = i + 1;
        assert(out@ =~= old(out)@ + bytes@.subrange(0, i as int));
    }
    assert(bytes@.subrange(0, i as int) =~= bytes@);
}

/// The array whose bytes are `s`.
pub open spec fn array_of<const N: usize>(s: Seq<u8>) -> [u8; N] {
    choose|a: [u8; N]| a@ == s
}

/// An array is determined by its bytes.
pub proof fn lemma_array_of<const N: usize>(a: [u8; N])
    ensures
        array_of::<N>(a@) == a,
{
    broadcast use vstd::array::group_array_axioms;

    let c = array_of::<N>(a@);
    assert(c@ == a@);
    assert(c =~= a);
}

/// Copies the first `N` bytes of `input`, from `*pos` on, into an array and
/// advances past them.
pub fn read_array<const N: usize>(input: &[u8], pos: &mut usize) -> (r: Result<[u8; N], CodecError>)
    requires
        *old(pos) <= input@.len(),
    ensures
        *old(pos) + N <= input@.len() ==> r == Ok::<[u8; N], CodecError>(
            array_of::<N>(input@.subrange(*old(pos) as int, *old(pos) + N)),
        ) && *final(pos) == *old(pos) + N,
        *old(pos) + N > input@.len() ==> r == Err::<[u8; N], CodecError>(CodecError::Truncated)
            && *final(pos) == *old(pos),
{
    broadcast use vstd::array::group_array_axioms;

    if input.len() - *pos < N {
        return Err(CodecError::Truncated);
    }
    let start = *pos;
    let src = vstd::slice::slice_subrange(input, start, start + N);
    let mut a = [0u8; N];
    let mut i: usize = 0;
    while i < N
        invariant
            i <= N,
            src@.len() == N,
            a@.len() == N,
            forall|j: int| 0 <= j < i ==> a@[j] == src@[j],
        decreases N - i,
    {
        a[i] = src[i];
        i = i + 1;
    }
    assert(a@ =~= src@);
    proof {
        lemma_array_of(a);
    }
    *pos = start + N;
    Ok(a)
}

} // verus!
