//! Big-endian reads from a byte slice at a cursor position.
use vstd::prelude::*;

use crate::error::ParseError;

verus! {

pub open spec fn be16(b: Seq<u8>, pos: int) -> int {
    b[pos] as int * 256 + b[pos + 1] as int
}

pub open spec fn be32(b: Seq<u8>, pos: int) -> int {
    be16(b, pos) * 65536 + be16(b, pos + 2)
}

pub open spec fn be64(b: Seq<u8>, pos: int) -> int {
    be32(b, pos) * 4294967296 + be32(b, pos + 4)
}

/// Two's-complement reading of an unsigned value below `modulus`.
pub open spec fn signed(v: int, modulus: int) -> int {
    if v >= modulus / 2 {
        v - modulus
    } else {
        v
    }
}

/// `n` bytes starting at `pos` lie inside `b`.
pub open spec fn fits(b: Seq<u8>, pos: int, n: int) -> bool {
    0 <= pos && pos + n <= b.len()
}

pub fn read_u8(b: &[u8], pos: usize) -> (r: Result<(u8, usize), ParseError>)
    ensures
        fits(b@, pos as int, 1) ==> r == Ok::<(u8, usize), ParseError>((b@[pos as int], (pos + 1) as usize)),
        !fits(b@, pos as int, 1) ==> r == Err::<(u8, usize), ParseError>(ParseError::UnexpectedEof),
{
    if pos < b.len() {
        Ok((b[pos], pos + 1))
    } else {
        Err(ParseError::UnexpectedEof)
    }
}

pub fn read_u16(b: &[u8], pos: usize) -> (r: Result<(u16, usize), ParseError>)
    ensures
        r == (if fits(b@, pos as int, 2) {
            Ok((be16(b@, pos as int) as u16, (pos + 2) as usize))
        } else {
            Err(ParseError::UnexpectedEof)
        }),
{
    if pos <= b.len() && b.len() - pos >= 2 {
        let v = (b[pos] as u16) * 256 + b[pos + 1] as u16;
        Ok((v, pos + 2))
    } else {
        Err(ParseError::UnexpectedEof)
    }
}

pub fn read_u32(b: &[u8], pos: usize) -> (r: Result<(u32, usize), ParseError>)
    ensures
        r == (if fits(b@, pos as int, 4) {
            Ok((be32(b@, pos as int) as u32, (pos + 4) as usize))
        } else {
            Err(ParseError::UnexpectedEof)
        }),
{
    if pos <= b.len() && b.len() - pos >= 4 {
        let hi = (b[pos] as u32) * 256 + b[pos + 1] as u32;
        let lo = (b[pos + 2] as u32) * 256 + b[pos + 3] as u32;
        Ok((hi * 65536 + lo, pos + 4))
    } else {
        Err(ParseError::UnexpectedEof)
    }
}

pub fn read_u64(b: &[u8], pos: usize) -> (r: Result<(u64, usize), ParseError>)
    ensures
        r == (if fits(b@, pos as int, 8) {
            Ok((be64(b@, pos as int) as u64, (pos + 8) as usize))
        } else {
            Err(ParseError::UnexpectedEof)
        }),
{
    if pos <= b.len() && b.len() - pos >= 8 {
        let (hi, p) = read_u32(b, pos)?;
        let (lo, end) = read_u32(b, p)?;
        Ok(((hi as u64) * 4294967296 + lo as u64, end))
    } else {
        Err(ParseError::UnexpectedEof)
    }
}

pub fn read_i8(b: &[u8], pos: usize) -> (r: Result<(i8, usize), ParseError>)
    ensures
        r == (if fits(b@, pos as int, 1) {
            Ok((signed(b@[pos as int] as int, 256) as i8, (pos + 1) as usize))
        } else {
            Err(ParseError::UnexpectedEof)
        }),
{
    let (u, end) = read_u8(b, pos)?;
    let v: i8 = if u >= 128 { (u as i16 - 256) as i8 } else { u as i8 };
    Ok((v, end))
}

pub fn read_i16(b: &[u8], pos: usize) -> (r: Result<(i16, usize), ParseError>)
    ensures
        r == (if fits(b@, pos as int, 2) {
            Ok((signed(be16(b@, pos as int), 65536) as i16, (pos + 2) as usize))
        } else {
            Err(ParseError::UnexpectedEof)
        }),
{
    let (u, end) = read_u16(b, pos)?;
    let v: i16 = if u >= 32768 { (u as i32 - 65536) as i16 } else { u as i16 };
    Ok((v, end))
}

pub fn read_i32(b: &[u8], pos: usize) -> (r: Result<(i32, usize), ParseError>)
    ensures
        r == (if fits(b@, pos as int, 4) {
            Ok((signed(be32(b@, pos as int), 4294967296) as i32, (pos + 4) as usize))
        } else {
            Err(ParseError::UnexpectedEof)
        }),
{
    let (u, end) = read_u32(b, pos)?;
    let v: i32 = if u >= 2147483648 { (u as i64 - 4294967296) as i32 } else { u as i32 };
    Ok((v, end))
}

} // verus!
