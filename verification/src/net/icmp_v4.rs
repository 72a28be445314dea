//! The ICMP (v4) message layout and its checksum.

use vstd::prelude::*;

verus! {

use crate::utils::checksum::{inet_sum, lemma_inet_sum_bounds};
use crate::utils::trans_bytes::push_bytes;

/// A decoded ICMP message: type, code, checksum, and the rest of the
/// datagram.
#[derive(Debug)]
pub struct IcmpV4 {
    pub icmp_type: u8,
    pub code: u8,
    pub check_sum: u16,
    pub data: Vec<u8>,
}

impl IcmpV4 {
    /// The message as it goes on the wire.
    pub open spec fn spec_bytes(self) -> Seq<u8> {
        seq![self.icmp_type, self.code, (self.check_sum >> 8) as u8, self.check_sum as u8]
            + self.data@
    }

    /// A message built from its fields; the checksum is the folded sum of
    /// the message serialized with a zero checksum field.  The data must
    /// pad the message to an even byte count.
    pub fn new(icmp_type: u8, code: u8, data: Vec<u8>) -> (r: Self)
        requires
            data@.len() % 2 == 0,
        ensures
            r == (IcmpV4 {
                icmp_type,
                code,
                check_sum: (inet_sum(
                    (IcmpV4 { icmp_type, code, check_sum: 0, data }).spec_bytes(),
                ) as u16),
                data,
            }),
    {
        let mut new_ins = IcmpV4 { icmp_type, code, check_sum: 0, data };
        let bytes = new_ins.serialized();
        new_ins.check_sum = Self::generate_checksum(&bytes);
        new_ins
    }

    /// A message decoded from wire bytes.
    pub fn deserialize(bytes: &Vec<u8>) -> (r: Self)
        requires
            bytes@.len() >= 4,
        ensures
            r.icmp_type == bytes@[0],
            r.code == bytes@[1],
            r.check_sum == ((bytes@[2] as u16) << 8) + (bytes@[3] as u16),
            r.data@ == bytes@.subrange(4, bytes@.len() as int),
    {
        let b2 = bytes[2];
        assert((b2 as u16) << 8 <= 0xff00) by (bit_vector);
        let mut data: Vec<u8> = Vec::new();
        push_bytes(&mut data, bytes.as_slice(), 4, bytes.len());
        proof {
            assert(Seq::<u8>::empty() + bytes@.subrange(4, bytes@.len() as int) =~= bytes@.subrange(
                4,
                bytes@.len() as int,
            ));
        }
        IcmpV4 {
            icmp_type: bytes[0],
            code: bytes[1],
            check_sum: ((b2 as u16) << 8) + (bytes[3] as u16),
            data,
        }
    }

    /// The message bytes as they go on the wire.
    pub fn serialized(&self) -> (r: Vec<u8>)
        ensures
            r@ == self.spec_bytes(),
    {
        let mut result: Vec<u8> = Vec::new();
        result.push(self.icmp_type);
        result.push(self.code);
        result.push((self.check_sum >> 8) as u8);
        result.push(self.check_sum as u8);
        push_bytes(&mut result, self.data.as_slice(), 0, self.data.len());
        proof {
            assert(self.data@.subrange(0, self.data@.len() as int) =~= self.data@);
            assert(result@ =~= self.spec_bytes());
        }
        result
    }

    /// The folded ones'-complement sum over an even number of bytes,
    /// without the final complement.
    fn generate_checksum(bytes: &Vec<u8>) -> (r: u16)
        requires
            bytes@.len() % 2 == 0,
        ensures
            r == inet_sum(bytes@),
    {
        let mut checksum: u32 = 0;
        let mut i: usize = 0;
        while i < bytes.len()
            invariant
                i <= bytes@.len(),
                i % 2 == 0,
                bytes@.len() % 2 == 0,
                checksum == inet_sum(bytes@.take(i as int)),
                checksum <= 0xffff,
            decreases bytes@.len() - i,
        {
            assert(i + 1 < bytes@.len());
            let hi = bytes[i];
            let lo = bytes[i + 1];
            assert((hi as u32) << 8 == hi * 0x100) by (bit_vector);
            checksum += ((hi as u32) << 8) + (lo as u32);
            if checksum & 0xffff0000 != 0 {
                assert(checksum & 0xffff0000 != 0 ==> checksum >= 0x10000) by (bit_vector);
                assert((checksum & 0x0000ffff) + (checksum >> 16) == checksum - 0xffff)
                    by (bit_vector)
                    requires
                        0x10000 <= checksum < 0x20000,
                ;
                checksum = (checksum & 0x0000ffff) + (checksum >> 16);
            } else {
                assert(checksum & 0xffff0000 == 0 ==> checksum < 0x10000) by (bit_vector);
            }
            proof {
                assert(bytes@.take(i + 2).take(i as int) =~= bytes@.take(i as int));
                assert(bytes@.take(i + 2)[i as int] == hi);
                assert(bytes@.take(i + 2)[i + 1] == lo);
            }
            i += 2;
        }
        proof {
            assert(bytes@.take(bytes@.len() as int) =~= bytes@);
        }
        checksum as u16
    }

    /// A byte string checks out when its folded sum, without complement,
    /// is zero.
    pub fn check(bytes: &Vec<u8>) -> (r: bool)
        requires
            bytes@.len() % 2 == 0,
        ensures
            r == (inet_sum(bytes@) == 0),
    {
        proof {
            lemma_inet_sum_bounds(bytes@);
        }
        Self::generate_checksum(bytes) == 0
    }
}

} // verus!
