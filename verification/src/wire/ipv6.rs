//! The header of IPv6 packets.

use vstd::prelude::*;
use vstd::slice::slice_subrange;
use crate::wire::bytes::{
    append_bytes, append_u16, append_u8, append_zeros, be_bytes, be_value, lemma_be_bytes_len,
    lemma_splice_none, lemma_value_of_bytes, pow256, read_u16, splice, zeros,
};
use crate::wire::ip::Ipv6Address;
use crate::wire::Error;

verus! {

/// The number of bytes of a header.
pub const HEADER_LEN: usize = 40;

/// What the header of a packet says.
#[derive(Debug, Clone, Copy, PartialEq, Eq, Structural)]
pub struct Ipv6Repr {
    pub src_addr: Ipv6Address,
    pub dst_addr: Ipv6Address,
    pub next_header: u8,
    pub payload_len: u16,
    pub hop_limit: u8,
}

impl Ipv6Repr {
    /// The bytes of the header. Traffic class and flow label are zero.
    pub open spec fn bytes(self) -> Seq<u8> {
        seq![0x60u8] + zeros(3) + be_bytes(self.payload_len as nat, 2) + seq![self.next_header]
            + seq![self.hop_limit] + be_bytes(self.src_addr.bits as nat, 16) + be_bytes(
            self.dst_addr.bits as nat,
            16,
        )
    }

    /// What the header of the packet `s` says, if `s` is a whole packet.
    pub open spec fn parsed(s: Seq<u8>) -> Option<Ipv6Repr> {
        let r = Ipv6Repr {
            src_addr: Ipv6Address { bits: be_value(s.subrange(8, 24)) as u128 },
            dst_addr: Ipv6Address { bits: be_value(s.subrange(24, 40)) as u128 },
            next_header: s[6],
            payload_len: be_value(s.subrange(4, 6)) as u16,
            hop_limit: s[7],
        };
        if s.len() >= HEADER_LEN && s.len() >= HEADER_LEN + be_value(s.subrange(4, 6)) && s[0] / 16
            == 6 {
            Some(r)
        } else {
            None
        }
    }

    /// Reads the header of a packet.
    pub fn parse(packet: &[u8]) -> (r: Result<Ipv6Repr, Error>)
        ensures
            match r {
                Ok(h) => Ipv6Repr::parsed(packet@) == Some(h),
                Err(Error) => Ipv6Repr::parsed(packet@) is None,
            },
    {
        if packet.len() < HEADER_LEN {
            return Err(Error);
        }
        let payload_len = read_u16(slice_subrange(packet, 4, 6));
        assert(packet@.subrange(4, 6).subrange(0, 2) =~= packet@.subrange(4, 6));
        if packet.len() < HEADER_LEN + payload_len as usize || packet[0] / 16 != 6 {
            return Err(Error);
        }
        assert(packet@.subrange(8, 24).subrange(0, 16) =~= packet@.subrange(8, 24));
        assert(packet@.subrange(24, 40).subrange(0, 16) =~= packet@.subrange(24, 40));
        Ok(
            Ipv6Repr {
                src_addr: Ipv6Address::from_octets(slice_subrange(packet, 8, 24)),
                dst_addr: Ipv6Address::from_octets(slice_subrange(packet, 24, 40)),
                next_header: packet[6],
                payload_len,
                hop_limit: packet[7],
            },
        )
    }

    /// Writes the header at `at`.
    pub fn emit(&self, buf: &mut [u8], at: usize)
        requires
            at + HEADER_LEN <= old(buf)@.len(),
        ensures
            final(buf)@ == splice(old(buf)@, at as int, self.bytes()),
    {
        proof {
            lemma_be_bytes_len(self.payload_len as nat, 2);
            lemma_be_bytes_len(self.src_addr.bits as nat, 16);
            lemma_be_bytes_len(self.dst_addr.bits as nat, 16);
            lemma_splice_none(buf@, at as int);
        }
        let end: usize = buf.len();
        assert(at + HEADER_LEN <= end);
        let ghost s = buf@;
        let ghost w = Seq::<u8>::empty();
        append_u8(buf, at, 0x60, Ghost(s), Ghost(w));
        let ghost w = w + seq![0x60u8];
        append_zeros(buf, at + 1, 3, Ghost(s), Ghost(w));
        let ghost w = w + zeros(3);
        append_u16(buf, at + 4, self.payload_len, Ghost(s), Ghost(w));
        let ghost w = w + be_bytes(self.payload_len as nat, 2);
        append_u8(buf, at + 6, self.next_header, Ghost(s), Ghost(w));
        let ghost w = w + seq![self.next_header];
        append_u8(buf, at + 7, self.hop_limit, Ghost(s), Ghost(w));
        let ghost w = w + seq![self.hop_limit];
        let src = self.src_addr.octets();
        append_bytes(buf, at + 8, src.as_slice(), Ghost(s), Ghost(w));
        let ghost w = w + src@;
        let dst = self.dst_addr.octets();
        append_bytes(buf, at + 24, dst.as_slice(), Ghost(s), Ghost(w));
        assert(w + dst@ =~= self.bytes());
    }

    /// The number of bytes of a header.
    pub(crate) proof fn lemma_len(self)
        ensures
            self.bytes().len() == HEADER_LEN,
    {
        lemma_be_bytes_len(self.payload_len as nat, 2);
        lemma_be_bytes_len(self.src_addr.bits as nat, 16);
        lemma_be_bytes_len(self.dst_addr.bits as nat, 16);
    }

    /// A header that was written in front of its payload is read back.
    pub proof fn law_header_round_trip(self, payload: Seq<u8>)
        requires
            payload.len() >= self.payload_len,
        ensures
            Ipv6Repr::parsed(self.bytes() + payload) == Some(self),
            self.bytes().len() == HEADER_LEN,
    {
        let s = self.bytes() + payload;
        lemma_be_bytes_len(self.payload_len as nat, 2);
        lemma_be_bytes_len(self.src_addr.bits as nat, 16);
        lemma_be_bytes_len(self.dst_addr.bits as nat, 16);
        assert(s.subrange(4, 6) =~= be_bytes(self.payload_len as nat, 2));
        assert(s.subrange(8, 24) =~= be_bytes(self.src_addr.bits as nat, 16));
        assert(s.subrange(24, 40) =~= be_bytes(self.dst_addr.bits as nat, 16));
        reveal_with_fuel(pow256, 17);
        lemma_value_of_bytes(self.payload_len as nat, 2);
        lemma_value_of_bytes(self.src_addr.bits as nat, 16);
        lemma_value_of_bytes(self.dst_addr.bits as nat, 16);
    }
}

} // verus!
