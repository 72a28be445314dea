//! The Internet checksum (RFC 1071 style): 16-bit ones'-complement sum with
//! end-around carry, taken over big-endian 16-bit words.

use vstd::prelude::*;

verus! {

/// One step of the running Internet sum: add a 16-bit word into the
/// accumulator and fold the carry bit back into the low 16 bits.
pub open spec fn sum16_step(acc: int, word: int) -> int {
    if acc + word >= 0x10000 {
        acc + word - 0xffff
    } else {
        acc + word
    }
}

/// Left-to-right ones'-complement sum of the big-endian 16-bit words of
/// `bytes` (whose length must be even for the value to describe the whole
/// input), with the carry folded back after every addition.
pub open spec fn inet_sum(bytes: Seq<u8>) -> int
    decreases bytes.len(),
{
    if bytes.len() < 2 {
        0
    } else {
        sum16_step(
            inet_sum(bytes.take(bytes.len() - 2)),
            bytes[bytes.len() - 2] * 0x100 + bytes[bytes.len() - 1],
        )
    }
}

/// The running sum never leaves the 16-bit range.
pub proof fn lemma_inet_sum_bounds(bytes: Seq<u8>)
    ensures
        0 <= inet_sum(bytes) <= 0xffff,
    decreases bytes.len(),
{
    if bytes.len() >= 2 {
        lemma_inet_sum_bounds(bytes.take(bytes.len() - 2));
    }
}

/// Checksum over an even number of bytes: the complement of the folded
/// ones'-complement sum.
pub fn generate_checksum(bytes: &Vec<u8>) -> (r: u16)
    requires
        bytes@.len() % 2 == 0,
    ensures
        r == (0xffff - inet_sum(bytes@)) as u16,
{
    let mut checksum: u32 = 0;
    let mut i: usize = 0;
    while i < bytes.len()
        invariant
            i <= bytes@.len(),
            i % 2 == 0,
            bytes@.len() % 2 == 0,
            checksum == inet_sum(bytes@.take(i as int)),
            checksum <= 0xffff,
        decreases bytes@.len() - i,
    {
        assert(i + 1 < bytes@.len());
        let hi = bytes[i];
        let lo = bytes[i + 1];
        assert((hi as u32) << 8 == hi * 0x100) by (bit_vector);
        checksum += ((hi as u32) << 8) + (lo as u32);
        if checksum & 0xffff0000 != 0 {
            assert(checksum & 0xffff0000 != 0 ==> checksum >= 0x10000) by (bit_vector);
            assert((checksum & 0x0000ffff) + (checksum >> 16) == checksum - 0xffff)
                by (bit_vector)
                requires 0x10000 <= checksum < 0x20000;
            checksum = (checksum & 0x0000ffff) + (checksum >> 16);
        } else {
            assert(checksum & 0xffff0000 == 0 ==> checksum < 0x10000) by (bit_vector);
        }
        proof {
            assert(bytes@.take(i + 2).take(i as int) =~= bytes@.take(i as int));
            assert(bytes@.take(i + 2)[i as int] == hi);
            assert(bytes@.take(i + 2)[i + 1] == lo);
        }
        i += 2;
    }
    proof {
        assert(bytes@.take(bytes@.len() as int) =~= bytes@);
    }
    let folded = checksum as u16;
    assert(!folded == (0xffff - folded) as u16) by (bit_vector);
    !folded
}

/// A byte string checks out when its folded sum complements to zero,
/// i.e. when the ones'-complement sum comes to `0xffff`.
pub fn check(bytes: &Vec<u8>) -> (r: bool)
    requires
        bytes@.len() % 2 == 0,
    ensures
        r == (inet_sum(bytes@) == 0xffff),
{
    proof {
        lemma_inet_sum_bounds(bytes@);
    }
    generate_checksum(bytes) == 0
}

} // verus!
