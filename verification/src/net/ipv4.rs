//! The IPv4 datagram layout and its header checksum.

use vstd::prelude::*;

verus! {

use crate::utils::checksum;

/// A decoded IPv4 datagram.  `version` and `ihl` are four bits each,
/// `flag` three bits, `frag_offset` thirteen bits; options and padding are
/// not modelled.
#[derive(Debug)]
pub struct Ipv4Datagram {
    pub version: u8,
    pub ihl: u8,
    pub tos: u8,
    pub toltal_len: u16,
    pub id: u16,
    pub flag: u8,
    pub frag_offset: u16,
    pub ttl: u8,
    pub protocol: u8,
    pub hdr_checksum: u16,
    pub s_addr: u32,
    pub d_addr: u32,
    pub payload: Vec<u8>,
}

impl Ipv4Datagram {
    /// The sub-byte fields fit their widths.
    pub open spec fn wf(self) -> bool {
        &&& self.version < 0x10
        &&& self.ihl < 0x10
        &&& self.flag < 8
        &&& self.frag_offset < 0x2000
    }

    /// The serialized header prefix: version through the source address.
    pub open spec fn spec_hdr(self) -> Seq<u8> {
        seq![
            ((self.version << 4) + self.ihl) as u8,
            self.tos,
            (self.toltal_len >> 8) as u8,
            self.toltal_len as u8,
            (self.id >> 8) as u8,
            self.id as u8,
            ((self.flag << 5) + ((self.frag_offset >> 10) as u8)) as u8,
            self.frag_offset as u8,
            self.ttl,
            self.protocol,
            (self.hdr_checksum >> 8) as u8,
            self.hdr_checksum as u8,
            (self.s_addr >> 24) as u8,
            (self.s_addr >> 16) as u8,
            (self.s_addr >> 8) as u8,
            self.s_addr as u8,
        ]
    }

    /// A datagram built from every field but the checksum, which is
    /// computed over the header serialized with a zero checksum field.
    pub fn new(
        version: u8,
        ihl: u8,
        tos: u8,
        toltal_len: u16,
        id: u16,
        flag: u8,
        frag_offset: u16,
        ttl: u8,
        protocol: u8,
        s_addr: u32,
        d_addr: u32,
        payload: Vec<u8>,
    ) -> (r: Self)
        requires
            version < 0x10,
            ihl < 0x10,
            flag < 8,
            frag_offset < 0x2000,
        ensures
            r == (Ipv4Datagram {
                version,
                ihl,
                tos,
                toltal_len,
                id,
                flag,
                frag_offset,
                ttl,
                protocol,
                hdr_checksum: ((0xffff - checksum::inet_sum(
                    (Ipv4Datagram {
                        version,
                        ihl,
                        tos,
                        toltal_len,
                        id,
                        flag,
                        frag_offset,
                        ttl,
                        protocol,
                        hdr_checksum: 0,
                        s_addr,
                        d_addr,
                        payload,
                    }).spec_hdr(),
                )) as u16),
                s_addr,
                d_addr,
                payload,
            }),
            r.wf(),
    {
        let mut new_ins = Ipv4Datagram {
            version,
            ihl,
            tos,
            toltal_len,
            id,
            flag,
            frag_offset,
            ttl,
            protocol,
            hdr_checksum: 0,
            s_addr,
            d_addr,
            payload,
        };
        new_ins.generate_hdr_checksum();
        new_ins
    }

    /// A datagram decoded from wire bytes.
    pub fn deserialize(bytes: Vec<u8>) -> (r: Ipv4Datagram)
        requires
            bytes@.len() >= 20,
        ensures
            r.version == bytes@[0] >> 4,
            r.ihl == bytes@[0] & 0x0f,
            r.tos == bytes@[1],
            r.toltal_len == ((bytes@[2] as u16) << 8) + (bytes@[3] as u16),
            r.id == ((bytes@[4] as u16) << 8) + (bytes@[5] as u16),
            r.flag == bytes@[6] >> 5,
            r.frag_offset == (((bytes@[6] & 0x1f) as u16) << 8) + (bytes@[7] as u16),
            r.ttl == bytes@[8],
            r.protocol == bytes@[9],
            r.hdr_checksum == ((bytes@[10] as u16) << 8) + (bytes@[11] as u16),
            r.s_addr == ((bytes@[12] as u32) << 24) + ((bytes@[13] as u32) << 16) + ((
            bytes@[14] as u32) << 8) + (bytes@[15] as u32),
            r.d_addr == ((bytes@[16] as u32) << 24) + ((bytes@[17] as u32) << 16) + ((
            bytes@[18] as u32) << 8) + (bytes@[19] as u32),
            r.payload@ == bytes@.subrange(20, bytes@.len() as int),
            r.wf(),
    {
        let b0 = bytes[0];
        let b2 = bytes[2];
        let b4 = bytes[4];
        let b6 = bytes[6];
        let b10 = bytes[10];
        let b12 = bytes[12];
        let b13 = bytes[13];
        let b14 = bytes[14];
        let b16 = bytes[16];
        let b17 = bytes[17];
        let b18 = bytes[18];
        assert(b0 >> 4 < 0x10) by (bit_vector);
        assert(b0 & 0x0f < 0x10) by (bit_vector);
        assert(b6 >> 5 < 8) by (bit_vector);
        assert((b2 as u16) << 8 <= 0xff00) by (bit_vector);
        assert((b4 as u16) << 8 <= 0xff00) by (bit_vector);
        assert(((b6 & 0x1f) as u16) << 8 <= 0x1f00) by (bit_vector);
        assert((b10 as u16) << 8 <= 0xff00) by (bit_vector);
        assert((b12 as u32) << 24 <= 0xff00_0000) by (bit_vector);
        assert((b13 as u32) << 16 <= 0xff_0000) by (bit_vector);
        assert((b14 as u32) << 8 <= 0xff00) by (bit_vector);
        assert((b16 as u32) << 24 <= 0xff00_0000) by (bit_vector);
        assert((b17 as u32) << 16 <= 0xff_0000) by (bit_vector);
        assert((b18 as u32) << 8 <= 0xff00) by (bit_vector);
        let version: u8 = bytes[0] >> 4;
        let ihl: u8 = bytes[0] & 0x0f;
        let tos: u8 = bytes[1];
        let toltal_len: u16 = ((bytes[2] as u16) << 8) + (bytes[3] as u16);
        let id: u16 = ((bytes[4] as u16) << 8) + (bytes[5] as u16);
        let flag: u8 = bytes[6] >> 5;
        let frag_offset: u16 = (((bytes[6] & 0x1f) as u16) << 8) + (bytes[7] as u16);
        let ttl: u8 = bytes[8];
        let protocol: u8 = bytes[9];
        let hdr_checksum: u16 = ((bytes[10] as u16) << 8) + (bytes[11] as u16);
        let s_addr: u32 = ((bytes[12] as u32) << 24) + ((bytes[13] as u32) << 16) + ((
        bytes[14] as u32) << 8) + (bytes[15] as u32);
        let d_addr: u32 = ((bytes[16] as u32) << 24) + ((bytes[17] as u32) << 16) + ((
        bytes[18] as u32) << 8) + (bytes[19] as u32);
        let mut payload: Vec<u8> = Vec::new();
        crate::utils::trans_bytes::push_bytes(&mut payload, bytes.as_slice(), 20, bytes.len());
        proof {
            assert(Seq::<u8>::empty() + bytes@.subrange(20, bytes@.len() as int) =~= bytes@
                .subrange(20, bytes@.len() as int));
            let fo = (((b6 & 0x1f) as u16) << 8) as int + bytes@[7];
            assert(((b6 & 0x1f) as u16) << 8 <= 0x1f00) by (bit_vector);
        }
        Ipv4Datagram {
            version,
            ihl,
            tos,
            toltal_len,
            id,
            flag,
            frag_offset,
            ttl,
            protocol,
            hdr_checksum,
            s_addr,
            d_addr,
            payload,
        }
    }

    /// Recompute the header checksum over the header with a zeroed
    /// checksum field, store it, and return it.
    fn generate_hdr_checksum(&mut self) -> (checksum: u16)
        requires
            old(self).wf(),
        ensures
            checksum == (0xffff - checksum::inet_sum(
                (Ipv4Datagram { hdr_checksum: 0, ..*old(self) }).spec_hdr(),
            )) as u16,
            *final(self) == (Ipv4Datagram { hdr_checksum: checksum, ..*old(self) }),
    {
        self.hdr_checksum = 0;
        let serialized_hdr = self.serialized_hdr();
        let checksum = checksum::generate_checksum(&serialized_hdr);
        self.hdr_checksum = checksum;
        checksum
    }

    /// The header prefix as it goes on the wire.
    pub fn serialized_hdr(&self) -> (r: Vec<u8>)
        requires
            self.wf(),
        ensures
            r@ == self.spec_hdr(),
    {
        let version = self.version;
        let ihl = self.ihl;
        let flag = self.flag;
        let frag_offset = self.frag_offset;
        assert(version << 4 <= 0xf0) by (bit_vector)
            requires
                version < 0x10,
        ;
        assert(flag << 5 <= 0xe0) by (bit_vector)
            requires
                flag < 8,
        ;
        assert((frag_offset >> 10) as u8 <= 7) by (bit_vector)
            requires
                frag_offset < 0x2000,
        ;
        let mut r: Vec<u8> = Vec::new();
        r.push((version << 4) + ihl);
        r.push(self.tos);
        r.push((self.toltal_len >> 8) as u8);
        r.push(self.toltal_len as u8);
        r.push((self.id >> 8) as u8);
        r.push(self.id as u8);
        r.push((flag << 5) + ((frag_offset >> 10) as u8));
        r.push(self.frag_offset as u8);
        r.push(self.ttl);
        r.push(self.protocol);
        r.push((self.hdr_checksum >> 8) as u8);
        r.push(self.hdr_checksum as u8);
        r.push((self.s_addr >> 24) as u8);
        r.push((self.s_addr >> 16) as u8);
        r.push((self.s_addr >> 8) as u8);
        r.push(self.s_addr as u8);
        proof {
            assert(r@ =~= self.spec_hdr());
        }
        r
    }
}

} // verus!
