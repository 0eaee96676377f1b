//! Fixed-width unsigned integers as they lie in a byte sequence, in either
//! byte order.

use vstd::prelude::*;

verus! {

/// The 16-bit integer whose two bytes start at index `at` of `data`.
pub open spec fn u16_at(data: Seq<u8>, at: int, big_endian: bool) -> u16 {
    if big_endian {
        (data[at] as int * 0x100 + data[at + 1] as int) as u16
    } else {
        (data[at + 1] as int * 0x100 + data[at] as int) as u16
    }
}

/// The 32-bit integer whose four bytes start at index `at` of `data`.
pub open spec fn u32_at(data: Seq<u8>, at: int, big_endian: bool) -> u32 {
    if big_endian {
        (data[at] as int * 0x100_0000 + data[at + 1] as int * 0x1_0000 + data[at + 2] as int
            * 0x100 + data[at + 3] as int) as u32
    } else {
        (data[at + 3] as int * 0x100_0000 + data[at + 2] as int * 0x1_0000 + data[at + 1] as int
            * 0x100 + data[at] as int) as u32
    }
}

/// The 64-bit integer whose eight bytes start at index `at` of `data`: two
/// 32-bit halves, the more significant one first in big-endian order.
pub open spec fn u64_at(data: Seq<u8>, at: int, big_endian: bool) -> u64 {
    if big_endian {
        (u32_at(data, at, true) as int * 0x1_0000_0000 + u32_at(data, at + 4, true) as int) as u64
    } else {
        (u32_at(data, at + 4, false) as int * 0x1_0000_0000 + u32_at(data, at, false) as int) as u64
    }
}

/// Decodes the 16-bit integer at `at`.
pub fn decode_u16(data: &[u8], at: usize, big_endian: bool) -> (v: u16)
    requires
        at + 2 <= data.len(),
    ensures
        v == u16_at(data@, at as int, big_endian),
{
    let b0: u16 = data[at] as u16;
    let b1: u16 = data[at + 1] as u16;
    if big_endian {
        b0 * 0x100 + b1
    } else {
        b1 * 0x100 + b0
    }
}

/// Decodes the 32-bit integer at `at`.
pub fn decode_u32(data: &[u8], at: usize, big_endian: bool) -> (v: u32)
    requires
        at + 4 <= data.len(),
    ensures
        v == u32_at(data@, at as int, big_endian),
{
    let b0: u32 = data[at] as u32;
    let b1: u32 = data[at + 1] as u32;
    let b2: u32 = data[at + 2] as u32;
    let b3: u32 = data[at + 3] as u32;
    if big_endian {
        b0 * 0x100_0000 + b1 * 0x1_0000 + b2 * 0x100 + b3
    } else {
        b3 * 0x100_0000 + b2 * 0x1_0000 + b1 * 0x100 + b0
    }
}

/// Decodes the 64-bit integer at `at`.
pub fn decode_u64(data: &[u8], at: usize, big_endian: bool) -> (v: u64)
    requires
        at + 8 <= data.len(),
    ensures
        v == u64_at(data@, at as int, big_endian),
{
    let first: u64 = decode_u32(data, at, big_endian) as u64;
    let second: u64 = decode_u32(data, at + 4, big_endian) as u64;
    if big_endian {
        first * 0x1_0000_0000 + second
    } else {
        second * 0x1_0000_0000 + first
    }
}

/// The byte order that a four-byte signature announces: `Some(true)` where
/// the bytes are `expected` as written, `Some(false)` where they are
/// `expected` read backwards, `None` where they are neither.
pub open spec fn signature_order(received: Seq<u8>, expected: Seq<u8>) -> Option<bool> {
    if received =~= expected {
        Some(true)
    } else if received =~= expected.reverse() {
        Some(false)
    } else {
        None
    }
}

/// Compares four bytes read from a file with a signature.
pub fn detect_byte_order(received: &[u8; 4], expected: &[u8; 4]) -> (order: Option<bool>)
    ensures
        order == signature_order(received@, expected@),
{
    if received[0] == expected[0] && received[1] == expected[1] && received[2] == expected[2]
        && received[3] == expected[3] {
        Some(true)
    } else if received[0] == expected[3] && received[1] == expected[2] && received[2]
        == expected[1] && received[3] == expected[0] {
        proof {
            assert(received@ =~= expected@.reverse());
        }
        Some(false)
    } else {
        proof {
            let r = expected@.reverse();
            assert(r[0] == expected@[3] && r[1] == expected@[2] && r[2] == expected@[1] && r[3]
                == expected@[0]);
        }
        None
    }
}

/// The four bytes of `buf` as an array.
pub fn four_bytes(buf: &Vec<u8>) -> (out: [u8; 4])
    requires
        buf@.len() == 4,
    ensures
        out@ == buf@,
{
    let out: [u8; 4] = [buf[0], buf[1], buf[2], buf[3]];
    assert(out@ =~= buf@);
    out
}

} // verus!
