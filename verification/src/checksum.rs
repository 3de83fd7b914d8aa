//! The CRC-32 checksum that guards each batch of the write-ahead log
//! (reflected polynomial `0xEDB88320`, as used by zlib and Ethernet).

use vstd::prelude::*;

verus! {

/// The generator polynomial, bits reflected.
pub const POLYNOMIAL: u32 = 0xEDB8_8320;

/// Register value before any byte is fed, and the mask applied at the end.
pub const ALL_ONES: u32 = 0xFFFF_FFFF;

/// One step of polynomial division: shifts out the lowest bit and, if it was
/// set, subtracts the generator.
pub open spec fn crc_shift(c: u32) -> u32 {
    if c & 1 == 1 {
        (c >> 1) ^ POLYNOMIAL
    } else {
        c >> 1
    }
}

/// The register after one more byte: the byte is added to the low end, then
/// eight bits are shifted out.
pub open spec fn crc_feed(c: u32, byte: u8) -> u32 {
    crc_shift(
        crc_shift(
            crc_shift(crc_shift(crc_shift(crc_shift(crc_shift(crc_shift(c ^ (byte as u32))))))),
        ),
    )
}

/// The register after all of `data` has been fed, byte by byte.
pub open spec fn crc_register(data: Seq<u8>) -> u32
    decreases data.len(),
{
    if data.len() == 0 {
        ALL_ONES
    } else {
        crc_feed(crc_register(data.drop_last()), data.last())
    }
}

/// The CRC-32 of `data`.
pub open spec fn crc32_of(data: Seq<u8>) -> u32 {
    crc_register(data) ^ ALL_ONES
}

/// Shifts one bit out of the register.
fn shift(c: u32) -> (r: u32)
    ensures
        r == crc_shift(c),
{
    if c & 1 == 1 {
        (c >> 1) ^ POLYNOMIAL
    } else {
        c >> 1
    }
}

/// Feeds one byte to the register.
fn feed(c: u32, byte: u8) -> (r: u32)
    ensures
        r == crc_feed(c, byte),
{
    let mut r: u32 = c ^ (byte as u32);
    r = shift(r);
    r = shift(r);
    r = shift(r);
    r = shift(r);
    r = shift(r);
    r = shift(r);
    r = shift(r);
    r = shift(r);
    r
}

/// Computes the CRC-32 of `data`.
pub fn crc32(data: &[u8]) -> (sum: u32)
    ensures
        sum == crc32_of(data@),
{
    let mut register: u32 = ALL_ONES;
    let mut i: usize = 0;
    while i < data.len()
        invariant
            i <= data.len(),
            register == crc_register(data@.take(i as int)),
        decreases data.len() - i,
    {
        proof {
            assert(data@.take(i + 1).drop_last() =~= data@.take(i as int));
        }
        register = feed(register, data[i]);
        i += 1;
    }
    proof {
        assert(data@.take(i as int) =~= data@);
    }
    register ^ ALL_ONES
}

} // verus!
