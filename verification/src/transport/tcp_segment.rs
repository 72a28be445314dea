//! The TCP segment as carried on the wire: a twenty-byte fixed header, a
//! nine-bit control field, optional 32-bit option words, and the payload.

use vstd::prelude::*;

verus! {

use crate::utils::checksum;
use crate::utils::trans_bytes;
use crate::utils::trans_bytes::{be_concat, be_value, push_bytes};

/// The nine TCP control flags, lowest wire bit first.
#[derive(Debug, Clone, Copy)]
pub enum TcpCtrlFlag {
    URG,
    ACK,
    PSH,
    RST,
    SYN,
    FIN,
    ECE,
    CWR,
    NS,
}

impl TcpCtrlFlag {
    /// The flag's bit within the nine-bit control field.
    pub open spec fn spec_mask(self) -> u16 {
        match self {
            TcpCtrlFlag::URG => 0x001,
            TcpCtrlFlag::ACK => 0x002,
            TcpCtrlFlag::PSH => 0x004,
            TcpCtrlFlag::RST => 0x008,
            TcpCtrlFlag::SYN => 0x010,
            TcpCtrlFlag::FIN => 0x020,
            TcpCtrlFlag::ECE => 0x040,
            TcpCtrlFlag::CWR => 0x080,
            TcpCtrlFlag::NS => 0x100,
        }
    }

    /// The flag's bit, as a value.
    pub fn mask(self) -> (r: u16)
        ensures
            r == self.spec_mask(),
    {
        match self {
            TcpCtrlFlag::URG => 0x001,
            TcpCtrlFlag::ACK => 0x002,
            TcpCtrlFlag::PSH => 0x004,
            TcpCtrlFlag::RST => 0x008,
            TcpCtrlFlag::SYN => 0x010,
            TcpCtrlFlag::FIN => 0x020,
            TcpCtrlFlag::ECE => 0x040,
            TcpCtrlFlag::CWR => 0x080,
            TcpCtrlFlag::NS => 0x100,
        }
    }
}

/// A decoded TCP segment.  `hl` is the header length in 32-bit words,
/// `rcvd` the three reserved bits, `ctrl` the nine control bits.
#[derive(Debug)]
pub struct TcpSegment {
    pub s_port: u16,
    pub d_port: u16,
    pub seq: u32,
    pub ack: u32,
    pub hl: u8,
    pub rcvd: u8,
    pub ctrl: u16,
    pub win_size: u16,
    pub checksum: u16,
    pub ur_ptr: u16,
    pub options: Vec<u32>,
    pub data: Vec<u8>,
}

impl TcpSegment {
    /// Whether the control field carries the given flag.
    pub open spec fn has_flag(self, flag: TcpCtrlFlag) -> bool {
        self.ctrl & flag.spec_mask() != 0
    }

    /// The thirteenth header byte: header length high, then the low three
    /// reserved bits, then the top control bit.
    pub open spec fn spec_hdr_byte12(self) -> u8 {
        (((self.hl << 4) & 0xf0) + ((self.rcvd & 0x07) << 1) + ((self.ctrl >> 8) & 1)) as u8
    }

    /// The serialized header: the twenty fixed bytes, then the option
    /// words, all big-endian.
    pub open spec fn spec_hdr(self) -> Seq<u8> {
        seq![
            (self.s_port >> 8) as u8,
            self.s_port as u8,
            (self.d_port >> 8) as u8,
            self.d_port as u8,
            (self.seq >> 24) as u8,
            (self.seq >> 16) as u8,
            (self.seq >> 8) as u8,
            self.seq as u8,
            (self.ack >> 24) as u8,
            (self.ack >> 16) as u8,
            (self.ack >> 8) as u8,
            self.ack as u8,
            self.spec_hdr_byte12(),
            self.ctrl as u8,
            (self.win_size >> 8) as u8,
            self.win_size as u8,
            (self.checksum >> 8) as u8,
            self.checksum as u8,
            (self.ur_ptr >> 8) as u8,
            self.ur_ptr as u8,
        ] + be_concat(self.options@)
    }

    /// A segment built from its fields; the checksum is computed over the
    /// header serialized with a zero checksum field.
    pub fn new(
        s_port: u16,
        d_port: u16,
        seq: u32,
        ack: u32,
        hl: u8,
        rcvd: u8,
        ctrl: u16,
        win_size: u16,
        ur_ptr: u16,
        options: Vec<u32>,
        data: Vec<u8>,
    ) -> (r: Self)
        ensures
            r == (TcpSegment {
                s_port,
                d_port,
                seq,
                ack,
                hl,
                rcvd,
                ctrl,
                win_size,
                ur_ptr,
                checksum: ((0xffff - checksum::inet_sum(
                    (TcpSegment {
                        s_port,
                        d_port,
                        seq,
                        ack,
                        hl,
                        rcvd,
                        ctrl,
                        win_size,
                        ur_ptr,
                        checksum: 0,
                        options,
                        data,
                    }).spec_hdr(),
                )) as u16),
                options,
                data,
            }),
    {
        let mut new_ins = TcpSegment {
            s_port,
            d_port,
            seq,
            ack,
            hl,
            rcvd,
            ctrl,
            win_size,
            ur_ptr,
            options,
            data,
            checksum: 0,
        };
        let hdr = new_ins.serialized_hdr();
        proof {
            trans_bytes::lemma_be_concat_len::<u32>(new_ins.options@);
        }
        new_ins.checksum = checksum::generate_checksum(&hdr);
        new_ins
    }

    /// A segment decoded from wire bytes: fixed fields from the first
    /// twenty bytes, options up to the header length, payload after it.
    pub fn deserialize(bytes: &Vec<u8>) -> (r: Self)
        requires
            bytes@.len() >= 20,
            20 <= (bytes@[12] >> 4) * 4 <= bytes@.len(),
        ensures
            ({
                let h = ((bytes@[12] >> 4) * 4) as int;
                &&& r.s_port as u64 == be_value(bytes@.subrange(0, 2))
                &&& r.d_port as u64 == be_value(bytes@.subrange(2, 4))
                &&& r.seq as u64 == be_value(bytes@.subrange(4, 8))
                &&& r.ack as u64 == be_value(bytes@.subrange(8, 12))
                &&& r.hl == bytes@[12] >> 4
                &&& r.rcvd == bytes@[12] & 0x0e
                &&& r.ctrl == (((bytes@[12] & 1) as u16) << 8) + (bytes@[13] as u16)
                &&& r.win_size as u64 == be_value(bytes@.subrange(14, 16))
                &&& r.checksum as u64 == be_value(bytes@.subrange(16, 18))
                &&& r.ur_ptr as u64 == be_value(bytes@.subrange(18, 20))
                &&& r.options@.len() == (h - 20) / 4
                &&& forall|j: int|
                    0 <= j < r.options@.len() ==> #[trigger] r.options@[j] as u64 == be_value(
                        bytes@.subrange(20 + 4 * j, 24 + 4 * j),
                    )
                &&& r.data@ == bytes@.subrange(h, bytes@.len() as int)
            }),
    {
        let h_bytes: usize = ((bytes[12] >> 4) as usize) * 4;
        let s_port = trans_bytes::bytes_vec_to_muilt_bytes(&bytes[0..2]) as u16;
        let d_port = trans_bytes::bytes_vec_to_muilt_bytes(&bytes[2..4]) as u16;
        let seq = trans_bytes::bytes_vec_to_muilt_bytes(&bytes[4..8]) as u32;
        let ack = trans_bytes::bytes_vec_to_muilt_bytes(&bytes[8..12]) as u32;
        let win_size = trans_bytes::bytes_vec_to_muilt_bytes(&bytes[14..16]) as u16;
        let checksum_field = trans_bytes::bytes_vec_to_muilt_bytes(&bytes[16..18]) as u16;
        let ur_ptr = trans_bytes::bytes_vec_to_muilt_bytes(&bytes[18..20]) as u16;
        proof {
            trans_bytes::lemma_be_value_bound(bytes@.subrange(0, 2));
            trans_bytes::lemma_be_value_bound(bytes@.subrange(2, 4));
            trans_bytes::lemma_be_value_bound(bytes@.subrange(4, 8));
            trans_bytes::lemma_be_value_bound(bytes@.subrange(8, 12));
            trans_bytes::lemma_be_value_bound(bytes@.subrange(14, 16));
            trans_bytes::lemma_be_value_bound(bytes@.subrange(16, 18));
            trans_bytes::lemma_be_value_bound(bytes@.subrange(18, 20));
            reveal_with_fuel(trans_bytes::pow256, 9);
        }
        let options = trans_bytes::bytes_vec_to_muilt_bytes_vec_u32(&bytes[20..h_bytes]);
        let mut data: Vec<u8> = Vec::new();
        push_bytes(&mut data, bytes.as_slice(), h_bytes, bytes.len());
        proof {
            let h = h_bytes as int;
            let opt_bytes = bytes@.subrange(20, h);
            assert forall|j: int| 0 <= j < options@.len() implies #[trigger] options@[j] as u64
                == be_value(bytes@.subrange(20 + 4 * j, 24 + 4 * j)) by {
                assert(options@[j] as u64 == be_value(opt_bytes.subrange(4 * j, 4 * j + 4)));
                assert(opt_bytes.subrange(4 * j, 4 * j + 4) =~= bytes@.subrange(
                    20 + 4 * j,
                    24 + 4 * j,
                ));
            }
            assert(Seq::<u8>::empty() + bytes@.subrange(h, bytes@.len() as int) =~= bytes@.subrange(
                h,
                bytes@.len() as int,
            ));
        }
        let b12 = bytes[12];
        assert(((b12 & 1) as u16) << 8 <= 0x100) by (bit_vector);
        TcpSegment {
            s_port,
            d_port,
            seq,
            ack,
            hl: bytes[12] >> 4,
            rcvd: bytes[12] & 0x0e,
            ctrl: (((b12 & 1) as u16) << 8) + (bytes[13] as u16),
            win_size,
            checksum: checksum_field,
            ur_ptr,
            options,
            data,
        }
    }

    /// The header bytes as they go on the wire.
    pub fn serialized_hdr(&self) -> (r: Vec<u8>)
        ensures
            r@ == self.spec_hdr(),
    {
        let mut bytes: Vec<u8> = Vec::new();
        bytes.push((self.s_port >> 8) as u8);
        bytes.push(self.s_port as u8);
        bytes.push((self.d_port >> 8) as u8);
        bytes.push(self.d_port as u8);
        bytes.push((self.seq >> 24) as u8);
        bytes.push((self.seq >> 16) as u8);
        bytes.push((self.seq >> 8) as u8);
        bytes.push(self.seq as u8);
        bytes.push((self.ack >> 24) as u8);
        bytes.push((self.ack >> 16) as u8);
        bytes.push((self.ack >> 8) as u8);
        bytes.push(self.ack as u8);
        let hl = self.hl;
        let rcvd = self.rcvd;
        let ctrl = self.ctrl;
        let hl_bits = (hl << 4) & 0xf0;
        let rcvd_bits = (rcvd & 0x07) << 1;
        let ctrl_bit = ((ctrl >> 8) & 1) as u8;
        assert((hl << 4) & 0xf0 <= 0xf0) by (bit_vector);
        assert((rcvd & 0x07) << 1 <= 0x0e) by (bit_vector);
        assert((ctrl >> 8) & 1 <= 1) by (bit_vector);
        assert(hl_bits + rcvd_bits + ctrl_bit == self.spec_hdr_byte12());
        bytes.push(hl_bits + rcvd_bits + ctrl_bit);
        bytes.push(self.ctrl as u8);
        bytes.push((self.win_size >> 8) as u8);
        bytes.push(self.win_size as u8);
        bytes.push((self.checksum >> 8) as u8);
        bytes.push(self.checksum as u8);
        bytes.push((self.ur_ptr >> 8) as u8);
        bytes.push(self.ur_ptr as u8);
        let mut opt_bytes = trans_bytes::multi_bytes_vec_to_bytes_vec(&self.options);
        bytes.append(&mut opt_bytes);
        proof {
            assert(bytes@ =~= self.spec_hdr());
        }
        bytes
    }

    /// The whole segment on the wire: header, then payload.
    pub fn serialized(&self) -> (r: Vec<u8>)
        ensures
            r@ == self.spec_hdr() + self.data@,
    {
        let mut result: Vec<u8> = self.serialized_hdr();
        push_bytes(&mut result, self.data.as_slice(), 0, self.data.len());
        proof {
            assert(self.data@.subrange(0, self.data@.len() as int) =~= self.data@);
        }
        result
    }

    /// Set or clear one control flag.
    pub fn update_ctrl(&mut self, flag: &TcpCtrlFlag, valid: bool)
        ensures
            *final(self) == (TcpSegment {
                ctrl: if valid {
                    old(self).ctrl | flag.spec_mask()
                } else {
                    old(self).ctrl & !flag.spec_mask()
                },
                ..*old(self)
            }),
    {
        if valid {
            self.ctrl = self.ctrl | flag.mask();
        } else {
            self.ctrl = self.ctrl & (!flag.mask());
        }
    }

    /// Whether the urgent flag is set.
    #[allow(non_snake_case)]
    pub fn URG(&self) -> (r: bool)
        ensures
            r == self.has_flag(TcpCtrlFlag::URG),
    {
        self.ctrl & 0x001 != 0
    }

    /// Whether the acknowledgment flag is set.
    #[allow(non_snake_case)]
    pub fn ACK(&self) -> (r: bool)
        ensures
            r == self.has_flag(TcpCtrlFlag::ACK),
    {
        self.ctrl & 0x002 != 0
    }

    /// Whether the push flag is set.
    #[allow(non_snake_case)]
    pub fn PSH(&self) -> (r: bool)
        ensures
            r == self.has_flag(TcpCtrlFlag::PSH),
    {
        self.ctrl & 0x004 != 0
    }

    /// Whether the reset flag is set.
    #[allow(non_snake_case)]
    pub fn RST(&self) -> (r: bool)
        ensures
            r == self.has_flag(TcpCtrlFlag::RST),
    {
        self.ctrl & 0x008 != 0
    }

    /// Whether the synchronize flag is set.
    #[allow(non_snake_case)]
    pub fn SYN(&self) -> (r: bool)
        ensures
            r == self.has_flag(TcpCtrlFlag::SYN),
    {
        self.ctrl & 0x010 != 0
    }

    /// Whether the finish flag is set.
    #[allow(non_snake_case)]
    pub fn FIN(&self) -> (r: bool)
        ensures
            r == self.has_flag(TcpCtrlFlag::FIN),
    {
        self.ctrl & 0x020 != 0
    }

    /// Whether the explicit-congestion-echo flag is set.
    #[allow(non_snake_case)]
    pub fn ECE(&self) -> (r: bool)
        ensures
            r == self.has_flag(TcpCtrlFlag::ECE),
    {
        self.ctrl & 0x040 != 0
    }

    /// Whether the congestion-window-reduced flag is set.
    #[allow(non_snake_case)]
    pub fn CWR(&self) -> (r: bool)
        ensures
            r == self.has_flag(TcpCtrlFlag::CWR),
    {
        self.ctrl & 0x080 != 0
    }

    /// Whether the nonce-sum flag is set.
    #[allow(non_snake_case)]
    pub fn NS(&self) -> (r: bool)
        ensures
            r == self.has_flag(TcpCtrlFlag::NS),
    {
        self.ctrl & 0x100 != 0
    }
}

} // verus!
