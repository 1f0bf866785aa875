//! CRC-32C, the Castagnoli checksum.

use vstd::prelude::*;

verus! {

/// The Castagnoli polynomial, with its bits reversed.
pub const POLYNOMIAL: u32 = 0x82f6_3b78;

/// One bit of the division.
pub open spec fn bit_step(remainder: u32) -> u32 {
    if remainder & 1 == 1 {
        (remainder >> 1) ^ POLYNOMIAL
    } else {
        remainder >> 1
    }
}

/// `count` bits of the division.
pub open spec fn bit_steps(remainder: u32, count: nat) -> u32
    decreases count,
{
    if count == 0 {
        remainder
    } else {
        bit_step(bit_steps(remainder, (count - 1) as nat))
    }
}

/// The remainder once all bytes are divided in.
pub open spec fn remainder_of(bytes: Seq<u8>) -> u32
    decreases bytes.len(),
{
    if bytes.len() == 0 {
        0xffff_ffff
    } else {
        bit_steps(remainder_of(bytes.drop_last()) ^ (bytes.last() as u32), 8)
    }
}

/// The CRC-32C of a sequence of bytes.
pub open spec fn crc_of(bytes: Seq<u8>) -> u32 {
    remainder_of(bytes) ^ 0xffff_ffff
}

/// The CRC-32C of `bytes`.
pub fn crc32c(bytes: &[u8]) -> (checksum: u32)
    ensures
        checksum == crc_of(bytes@),
{
    let mut remainder: u32 = 0xffff_ffff;
    let mut at: usize = 0;
    assert(bytes@.take(0) =~= Seq::<u8>::empty());
    while at < bytes.len()
        invariant
            at <= bytes@.len(),
            remainder == remainder_of(bytes@.take(at as int)),
        decreases bytes@.len() - at,
    {
        let start: u32 = remainder ^ (bytes[at] as u32);
        let mut value: u32 = start;
        let mut count: u8 = 0;
        while count < 8
            invariant
                count <= 8,
                value == bit_steps(start, count as nat),
            decreases 8 - count,
        {
            value = if value & 1 == 1 {
                (value >> 1) ^ POLYNOMIAL
            } else {
                value >> 1
            };
            count = count + 1;
        }
        assert(bytes@.take(at + 1).drop_last() =~= bytes@.take(at as int));
        remainder = value;
        at = at + 1;
    }
    assert(bytes@.take(bytes@.len() as int) =~= bytes@);
    remainder ^ 0xffff_ffff
}

} // verus!
