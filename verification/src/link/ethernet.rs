//! Ethernet framing: destination and source MAC, EtherType, payload, and a
//! CRC-32 frame check sequence over everything before it.

use vstd::prelude::*;

verus! {

use crate::utils::trans_bytes;
use crate::utils::trans_bytes::{be_value, push_bytes};

/// The CRC-32 generator polynomial used by Ethernet.
pub const CRC32_POLY: u32 = 0x04C11DB7;

/// One CRC division step: shift out the top bit and subtract the
/// polynomial when it was set.
pub open spec fn crc_shift(f: u32) -> u32 {
    if f & 0x8000_0000 != 0 {
        (f << 1) ^ CRC32_POLY
    } else {
        f << 1
    }
}

/// `n` CRC division steps.
pub open spec fn crc_shifts(f: u32, n: nat) -> u32
    decreases n,
{
    if n == 0 {
        f
    } else {
        crc_shifts(crc_shift(f), (n - 1) as nat)
    }
}

/// Fold one byte into the remainder: mix it into the top eight bits, then
/// run eight division steps.
pub open spec fn crc_byte(f: u32, b: u8) -> u32 {
    crc_shifts(f ^ ((b as u32) << 24), 8)
}

/// Fold a byte string into the remainder, left to right.
pub open spec fn crc_fold(f: u32, s: Seq<u8>) -> u32
    decreases s.len(),
{
    if s.len() == 0 {
        f
    } else {
        crc_fold(crc_byte(f, s[0]), s.drop_first())
    }
}

/// The frame check sequence of a byte string: CRC-32 with an all-ones
/// initial remainder.
pub open spec fn spec_fcs(bytes: Seq<u8>) -> u32 {
    crc_fold(0xffff_ffff, bytes)
}

/// An Ethernet frame, without preamble or start delimiter.
#[derive(Debug)]
pub struct EthernetFrame {
    pub d_mac: [u8; 6],
    pub s_mac: [u8; 6],
    pub ether_type: u16,
    pub payload: Vec<u8>,
    pub fcs: u32,
}

impl EthernetFrame {
    /// The frame bytes that the check sequence covers: both addresses, the
    /// EtherType, and the payload.
    pub open spec fn spec_prefix(self) -> Seq<u8> {
        self.d_mac@ + self.s_mac@ + seq![(self.ether_type >> 8) as u8, self.ether_type as u8]
            + self.payload@
    }

    /// The whole frame on the wire: the covered bytes, then the check
    /// sequence big-endian.
    pub open spec fn spec_bytes(self) -> Seq<u8> {
        self.spec_prefix() + seq![
            (self.fcs >> 24) as u8,
            (self.fcs >> 16) as u8,
            (self.fcs >> 8) as u8,
            self.fcs as u8,
        ]
    }

    /// A frame over the given payload, its check sequence computed from
    /// the covered bytes.
    pub fn new(d_mac: [u8; 6], s_mac: [u8; 6], ether_type: u16, payload: Vec<u8>) -> (r: Self)
        ensures
            r.d_mac == d_mac,
            r.s_mac == s_mac,
            r.ether_type == ether_type,
            r.payload == payload,
            r.fcs == spec_fcs(r.spec_prefix()),
    {
        let mut new_ins = EthernetFrame { d_mac, s_mac, ether_type, payload, fcs: 0 };
        new_ins.fcs = new_ins.generate_fcs();
        new_ins
    }

    /// A frame decoded from wire bytes; the frame must be at least the
    /// 64-byte Ethernet minimum.
    pub fn deserialize(bytes: &[u8]) -> (r: Self)
        requires
            bytes@.len() >= 64,
        ensures
            r.d_mac@ == bytes@.subrange(0, 6),
            r.s_mac@ == bytes@.subrange(6, 12),
            r.ether_type == ((bytes@[12] as u16) << 8) + (bytes@[13] as u16),
            r.payload@ == bytes@.subrange(14, bytes@.len() - 4),
            r.fcs as u64 == be_value(bytes@.subrange(bytes@.len() - 4, bytes@.len() as int)),
    {
        let size = bytes.len();
        let d_mac: [u8; 6] = [bytes[0], bytes[1], bytes[2], bytes[3], bytes[4], bytes[5]];
        let s_mac: [u8; 6] = [bytes[6], bytes[7], bytes[8], bytes[9], bytes[10], bytes[11]];
        let b12 = bytes[12];
        assert((b12 as u16) << 8 <= 0xff00) by (bit_vector);
        let ether_type = ((b12 as u16) << 8) + (bytes[13] as u16);
        let mut payload: Vec<u8> = Vec::new();
        push_bytes(&mut payload, bytes, 14, size - 4);
        let fcs64 = trans_bytes::bytes_vec_to_muilt_bytes(&bytes[size - 4..size]);
        proof {
            trans_bytes::lemma_be_value_bound(bytes@.subrange(size - 4, size as int));
            reveal_with_fuel(trans_bytes::pow256, 5);
            assert(d_mac@ =~= bytes@.subrange(0, 6));
            assert(s_mac@ =~= bytes@.subrange(6, 12));
            assert(Seq::<u8>::empty() + bytes@.subrange(14, size - 4) =~= bytes@.subrange(
                14,
                size - 4,
            ));
        }
        let fcs = fcs64 as u32;
        EthernetFrame { d_mac, s_mac, ether_type, payload, fcs }
    }

    /// The check sequence of this frame's covered bytes: CRC-32 long
    /// division of the serialized frame without its trailing four bytes.
    pub fn generate_fcs(&self) -> (r: u32)
        ensures
            r == spec_fcs(self.spec_prefix()),
    {
        let serialzed_frame = self.serialized();
        let n = serialzed_frame.len() - 4;
        let ghost d = self.spec_prefix();
        proof {
            assert(serialzed_frame@.subrange(0, n as int) =~= d);
        }
        let mut fcs: u32 = 0xffff_ffff;
        let mut i: usize = 0;
        proof {
            assert(d.skip(0) =~= d);
        }
        while i < n
            invariant
                i <= n,
                n == d.len(),
                n + 4 == serialzed_frame@.len(),
                serialzed_frame@.subrange(0, n as int) == d,
                spec_fcs(d) == crc_fold(fcs, d.skip(i as int)),
            decreases n - i,
        {
            let byte = serialzed_frame[i];
            proof {
                assert(d.skip(i as int)[0] == d[i as int]);
                assert(d.skip(i as int).drop_first() =~= d.skip(i + 1));
            }
            fcs ^= (byte as u32) << 24;
            let ghost start = fcs;
            let mut j: usize = 0;
            while j < 8
                invariant
                    j <= 8,
                    crc_shifts(start, 8) == crc_shifts(fcs, (8 - j) as nat),
                decreases 8 - j,
            {
                if fcs & 0x8000_0000 != 0 {
                    fcs = (fcs << 1) ^ CRC32_POLY;
                } else {
                    fcs = fcs << 1;
                }
                j += 1;
            }
            i += 1;
        }
        proof {
            assert(d.skip(d.len() as int) =~= Seq::<u8>::empty());
        }
        fcs
    }

    /// Whether the stored check sequence matches the covered bytes.
    pub fn check_fcs(&self) -> (r: bool)
        ensures
            r == (self.fcs == spec_fcs(self.spec_prefix())),
    {
        self.fcs == self.generate_fcs()
    }

    /// The frame as it goes on the wire.
    pub fn serialized(&self) -> (r: Vec<u8>)
        ensures
            r@ == self.spec_bytes(),
    {
        let mut nums: Vec<u8> = Vec::new();
        let mut i: usize = 0;
        while i < 6
            invariant
                i <= 6,
                nums@ == self.d_mac@.take(i as int),
            decreases 6 - i,
        {
            nums.push(self.d_mac[i]);
            proof {
                assert(self.d_mac@.take(i + 1) =~= self.d_mac@.take(i as int).push(
                    self.d_mac@[i as int],
                ));
            }
            i += 1;
        }
        let mut i: usize = 0;
        while i < 6
            invariant
                i <= 6,
                nums@ == self.d_mac@.take(6) + self.s_mac@.take(i as int),
            decreases 6 - i,
        {
            nums.push(self.s_mac[i]);
            proof {
                assert(self.s_mac@.take(i + 1) =~= self.s_mac@.take(i as int).push(
                    self.s_mac@[i as int],
                ));
            }
            i += 1;
        }
        nums.push((self.ether_type >> 8) as u8);
        nums.push((self.ether_type & 0xFF) as u8);
        push_bytes(&mut nums, self.payload.as_slice(), 0, self.payload.len());
        nums.push((self.fcs >> 24) as u8);
        nums.push((self.fcs >> 16) as u8);
        nums.push((self.fcs >> 8) as u8);
        nums.push(self.fcs as u8);
        proof {
            let et = self.ether_type;
            assert((et & 0xFF) as u8 == et as u8) by (bit_vector);
            assert(self.d_mac@.take(6) =~= self.d_mac@);
            assert(self.s_mac@.take(6) =~= self.s_mac@);
            assert(self.payload@.subrange(0, self.payload@.len() as int) =~= self.payload@);
            assert(nums@ =~= self.spec_bytes());
        }
        nums
    }
}

} // verus!
