//! An earlier cut of the TCP segment layout, kept alongside the current
//! one: the control field is a single byte and the reserved field takes
//! four bits of the thirteenth header byte.

use vstd::prelude::*;

verus! {

use crate::utils::checksum;
use crate::utils::trans_bytes;
use crate::utils::trans_bytes::{be_concat, be_value, push_bytes};

/// A decoded TCP segment with an eight-bit control field.  `hl` is the
/// header length in 32-bit words, `rcvd` the four reserved bits.
#[derive(Debug)]
pub struct TcpSegment {
    pub s_port: u16,
    pub d_port: u16,
    pub seq: u32,
    pub ack: u32,
    pub hl: u8,
    pub rcvd: u8,
    pub ctrl: u8,
    pub win_size: u16,
    pub checksum: u16,
    pub ur_ptr: u16,
    pub options: Vec<u32>,
    pub data: Vec<u8>,
}

impl TcpSegment {
    /// The thirteenth header byte: header length high, reserved bits low.
    pub open spec fn spec_hdr_byte12(self) -> u8 {
        (((self.hl << 4) & 0xf0) + (self.rcvd & 0x0f)) as u8
    }

    /// The serialized header: the twenty fixed bytes, then the option
    /// words, all big-endian.
    pub open spec fn spec_hdr(self) -> Seq<u8> {
        seq![
            (self.s_port >> 8) as u8,
            self.s_port as u8,
            (self.d_port >> 8) as u8,
            self.d_port as u8,
            (self.seq >> 24) as u8,
            (self.seq >> 16) as u8,
            (self.seq >> 8) as u8,
            self.seq as u8,
            (self.ack >> 24) as u8,
            (self.ack >> 16) as u8,
            (self.ack >> 8) as u8,
            self.ack as u8,
            self.spec_hdr_byte12(),
            self.ctrl,
            (self.win_size >> 8) as u8,
            self.win_size as u8,
            (self.checksum >> 8) as u8,
            self.checksum as u8,
            (self.ur_ptr >> 8) as u8,
            self.ur_ptr as u8,
        ] + be_concat(self.options@)
    }

    /// A segment built from its fields; the checksum is computed over the
    /// header serialized with a zero checksum field.
    pub fn new(
        s_port: u16,
        d_port: u16,
        seq: u32,
        ack: u32,
        hl: u8,
        rcvd: u8,
        ctrl: u8,
        win_size: u16,
        ur_ptr: u16,
        options: Vec<u32>,
        data: Vec<u8>,
    ) -> (r: Self)
        ensures
            r == (TcpSegment {
                s_port,
                d_port,
                seq,
                ack,
                hl,
                rcvd,
                ctrl,
                win_size,
                ur_ptr,
                checksum: ((0xffff - checksum::inet_sum(
                    (TcpSegment {
                        s_port,
                        d_port,
                        seq,
                        ack,
                        hl,
                        rcvd,
                        ctrl,
                        win_size,
                        ur_ptr,
                        checksum: 0,
                        options,
                        data,
                    }).spec_hdr(),
                )) as u16),
                options,
                data,
            }),
    {
        let mut new_ins = TcpSegment {
            s_port,
            d_port,
            seq,
            ack,
            hl,
            rcvd,
            ctrl,
            win_size,
            ur_ptr,
            options,
            data,
            checksum: 0,
        };
        let hdr = new_ins.serialized_hdr();
        proof {
            trans_bytes::lemma_be_concat_len::<u32>(new_ins.options@);
        }
        new_ins.checksum = checksum::generate_checksum(&hdr);
        new_ins
    }

    /// A segment decoded from wire bytes: fixed fields from the first
    /// twenty bytes, options up to the header length, payload after it.
    pub fn deserialize(bytes: &Vec<u8>) -> (r: Self)
        requires
            bytes@.len() >= 20,
            20 <= (bytes@[12] >> 4) * 4 <= bytes@.len(),
        ensures
            ({
                let h = ((bytes@[12] >> 4) * 4) as int;
                &&& r.s_port as u64 == be_value(bytes@.subrange(0, 2))
                &&& r.d_port as u64 == be_value(bytes@.subrange(2, 4))
                &&& r.seq as u64 == be_value(bytes@.subrange(4, 8))
                &&& r.ack as u64 == be_value(bytes@.subrange(8, 12))
                &&& r.hl == bytes@[12] >> 4
                &&& r.rcvd == bytes@[12] & 0x0f
                &&& r.ctrl == bytes@[13]
                &&& r.win_size as u64 == be_value(bytes@.subrange(14, 16))
                &&& r.checksum as u64 == be_value(bytes@.subrange(16, 18))
                &&& r.ur_ptr as u64 == be_value(bytes@.subrange(18, 20))
                &&& r.options@.len() == (h - 20) / 4
                &&& forall|j: int|
                    0 <= j < r.options@.len() ==> #[trigger] r.options@[j] as u64 == be_value(
                        bytes@.subrange(20 + 4 * j, 24 + 4 * j),
                    )
                &&& r.data@ == bytes@.subrange(h, bytes@.len() as int)
            }),
    {
        let h_bytes: usize = ((bytes[12] >> 4) as usize) * 4;
        let s_port = trans_bytes::bytes_vec_to_muilt_bytes(&bytes[0..2]) as u16;
        let d_port = trans_bytes::bytes_vec_to_muilt_bytes(&bytes[2..4]) as u16;
        let seq = trans_bytes::bytes_vec_to_muilt_bytes(&bytes[4..8]) as u32;
        let ack = trans_bytes::bytes_vec_to_muilt_bytes(&bytes[8..12]) as u32;
        let win_size = trans_bytes::bytes_vec_to_muilt_bytes(&bytes[14..16]) as u16;
        let checksum_field = trans_bytes::bytes_vec_to_muilt_bytes(&bytes[16..18]) as u16;
        let ur_ptr = trans_bytes::bytes_vec_to_muilt_bytes(&bytes[18..20]) as u16;
        proof {
            trans_bytes::lemma_be_value_bound(bytes@.subrange(0, 2));
            trans_bytes::lemma_be_value_bound(bytes@.subrange(2, 4));
            trans_bytes::lemma_be_value_bound(bytes@.subrange(4, 8));
            trans_bytes::lemma_be_value_bound(bytes@.subrange(8, 12));
            trans_bytes::lemma_be_value_bound(bytes@.subrange(14, 16));
            trans_bytes::lemma_be_value_bound(bytes@.subrange(16, 18));
            trans_bytes::lemma_be_value_bound(bytes@.subrange(18, 20));
            reveal_with_fuel(trans_bytes::pow256, 9);
        }
        let options = trans_bytes::bytes_vec_to_muilt_bytes_vec_u32(&bytes[20..h_bytes]);
        let mut data: Vec<u8> = Vec::new();
        push_bytes(&mut data, bytes.as_slice(), h_bytes, bytes.len());
        proof {
            let h = h_bytes as int;
            let opt_bytes = bytes@.subrange(20, h);
            assert forall|j: int| 0 <= j < options@.len() implies #[trigger] options@[j] as u64
                == be_value(bytes@.subrange(20 + 4 * j, 24 + 4 * j)) by {
                assert(options@[j] as u64 == be_value(opt_bytes.subrange(4 * j, 4 * j + 4)));
                assert(opt_bytes.subrange(4 * j, 4 * j + 4) =~= bytes@.subrange(
                    20 + 4 * j,
                    24 + 4 * j,
                ));
            }
            assert(Seq::<u8>::empty() + bytes@.subrange(h, bytes@.len() as int) =~= bytes@.subrange(
                h,
                bytes@.len() as int,
            ));
        }
        TcpSegment {
            s_port,
            d_port,
            seq,
            ack,
            hl: bytes[12] >> 4,
            rcvd: bytes[12] & 0x0f,
            ctrl: bytes[13],
            win_size,
            checksum: checksum_field,
            ur_ptr,
            options,
            data,
        }
    }

    /// The header bytes as they go on the wire.
    pub fn serialized_hdr(&self) -> (r: Vec<u8>)
        ensures
            r@ == self.spec_hdr(),
    {
        let mut bytes: Vec<u8> = Vec::new();
        bytes.push((self.s_port >> 8) as u8);
        bytes.push(self.s_port as u8);
        bytes.push((self.d_port >> 8) as u8);
        bytes.push(self.d_port as u8);
        bytes.push((self.seq >> 24) as u8);
        bytes.push((self.seq >> 16) as u8);
        bytes.push((self.seq >> 8) as u8);
        bytes.push(self.seq as u8);
        bytes.push((self.ack >> 24) as u8);
        bytes.push((self.ack >> 16) as u8);
        bytes.push((self.ack >> 8) as u8);
        bytes.push(self.ack as u8);
        let hl = self.hl;
        let rcvd = self.rcvd;
        let hl_bits = (hl << 4) & 0xf0;
        let rcvd_bits = rcvd & 0x0f;
        assert((hl << 4) & 0xf0 <= 0xf0) by (bit_vector);
        assert((rcvd & 0x0f) <= 0x0f) by (bit_vector);
        assert(hl_bits + rcvd_bits == self.spec_hdr_byte12());
        bytes.push(hl_bits + rcvd_bits);
        bytes.push(self.ctrl);
        bytes.push((self.win_size >> 8) as u8);
        bytes.push(self.win_size as u8);
        bytes.push((self.checksum >> 8) as u8);
        bytes.push(self.checksum as u8);
        bytes.push((self.ur_ptr >> 8) as u8);
        bytes.push(self.ur_ptr as u8);
        let mut opt_bytes = trans_bytes::multi_bytes_vec_to_bytes_vec(&self.options);
        bytes.append(&mut opt_bytes);
        proof {
            assert(bytes@ =~= self.spec_hdr());
        }
        bytes
    }

    /// The whole segment on the wire: header, then payload.
    pub fn serialized(&self) -> (r: Vec<u8>)
        ensures
            r@ == self.spec_hdr() + self.data@,
    {
        let mut result: Vec<u8> = self.serialized_hdr();
        push_bytes(&mut result, self.data.as_slice(), 0, self.data.len());
        proof {
            assert(self.data@.subrange(0, self.data@.len() as int) =~= self.data@);
        }
        result
    }
}

} // verus!
