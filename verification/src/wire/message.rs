//! Neighbor Discovery messages together with their checksum.

use vstd::prelude::*;
use crate::wire::bytes::{be_bytes, lemma_be_bytes_len, splice, zeros, BufferMut};
use crate::wire::icmpv6::{
    checksum_bytes, law_filled_checksum_is_right, message_sum, with_checksum, Packet,
};
use crate::wire::ip::Ipv6Address;
use crate::wire::ndisc::{law_message_round_trip, Repr, ReprView};
use crate::wire::Error;

verus! {

/// Which checksums are computed here rather than by the network device.
#[derive(Debug, Clone, Copy, PartialEq, Eq, Structural)]
pub struct ChecksumCapabilities {
    /// The checksum of a message that is sent.
    pub icmpv6_tx: bool,
    /// The checksum of a message that is received.
    pub icmpv6_rx: bool,
}

impl Default for ChecksumCapabilities {
    fn default() -> (r: ChecksumCapabilities)
        ensures
            r.icmpv6_tx && r.icmpv6_rx,
    {
        ChecksumCapabilities { icmpv6_tx: true, icmpv6_rx: true }
    }
}

/// A message.
#[derive(Debug, Clone, Copy, PartialEq, Eq)]
pub enum Icmpv6Repr<'a> {
    /// A message of Neighbor Discovery.
    Ndisc(Repr<'a>),
}

impl<'a> View for Icmpv6Repr<'a> {
    type V = ReprView;

    open spec fn view(&self) -> ReprView {
        match *self {
            Icmpv6Repr::Ndisc(repr) => repr@,
        }
    }
}

/// The message that the bytes `s` are, if they are one with the right checksum.
pub open spec fn checked(
    src: Ipv6Address,
    dst: Ipv6Address,
    s: Seq<u8>,
    caps: ChecksumCapabilities,
) -> Option<ReprView> {
    if caps.icmpv6_rx && message_sum(src, dst, s) != 0xffff {
        None
    } else {
        ReprView::parsed(s)
    }
}

/// The buffer `s` after a message and its checksum were written to it. A
/// checksum that is not computed here is left zero.
pub open spec fn summed(
    v: ReprView,
    src: Ipv6Address,
    dst: Ipv6Address,
    s: Seq<u8>,
    caps: ChecksumCapabilities,
) -> Seq<u8> {
    if caps.icmpv6_tx {
        with_checksum(src, dst, v.emitted(s))
    } else {
        splice(v.emitted(s), 2, zeros(2))
    }
}

impl<'a> Icmpv6Repr<'a> {
    /// Checks and reads a message.
    pub fn parse(
        src_addr: &Ipv6Address,
        dst_addr: &Ipv6Address,
        packet: &Packet<&'a [u8]>,
        checksum_caps: &ChecksumCapabilities,
    ) -> (r: Result<Icmpv6Repr<'a>, Error>)
        requires
            packet@.len() <= 0xffff_ffff,
        ensures
            match r {
                Ok(repr) => checked(*src_addr, *dst_addr, packet@, *checksum_caps) == Some(repr@),
                Err(Error) => checked(*src_addr, *dst_addr, packet@, *checksum_caps) is None,
            },
    {
        if checksum_caps.icmpv6_rx && !packet.verify_checksum(src_addr, dst_addr) {
            return Err(Error);
        }
        match Repr::parse(packet) {
            Ok(repr) => Ok(Icmpv6Repr::Ndisc(repr)),
            Err(_) => Err(Error),
        }
    }

    /// The number of bytes that the message takes.
    pub fn buffer_len(&self) -> (r: usize)
        requires
            self@.countable(),
        ensures
            r == 4 + self@.body().len(),
    {
        match self {
            Icmpv6Repr::Ndisc(repr) => repr.buffer_len(),
        }
    }

    /// Writes the message and its checksum.
    pub fn emit<T: BufferMut>(
        &self,
        src_addr: &Ipv6Address,
        dst_addr: &Ipv6Address,
        packet: &mut Packet<T>,
        checksum_caps: &ChecksumCapabilities,
    )
        requires
            self@.whole(),
            4 + self@.body().len() <= old(packet)@.len() <= 0xffff_ffff,
        ensures
            final(packet)@ == summed(self@, *src_addr, *dst_addr, old(packet)@, *checksum_caps),
    {
        match self {
            Icmpv6Repr::Ndisc(repr) => {
                repr.emit(packet);
            },
        }
        if checksum_caps.icmpv6_tx {
            packet.fill_checksum(src_addr, dst_addr);
        } else {
            proof {
                lemma_be_bytes_len(0, 2);
                reveal_with_fuel(be_bytes, 3);
                assert(be_bytes(0, 2) =~= zeros(2));
            }
            packet.set_checksum(0);
        }
    }
}

/// A message that was written with its checksum to a buffer of its size passes
/// the check and is read back. Of a Redirect, the link-layer address is lost.
pub proof fn law_checked_message_round_trip(
    v: ReprView,
    src: Ipv6Address,
    dst: Ipv6Address,
    s: Seq<u8>,
    sender: ChecksumCapabilities,
    receiver: ChecksumCapabilities,
)
    requires
        v.canonical(),
        s.len() == 4 + v.body().len(),
        s.len() <= 0xffff_ffff,
        receiver.icmpv6_rx ==> sender.icmpv6_tx,
    ensures
        checked(src, dst, summed(v, src, dst, s, sender), receiver) == Some(v.received()),
{
    let e = v.emitted(s);
    let digits = if sender.icmpv6_tx {
        checksum_bytes(src, dst, e)
    } else {
        zeros(2)
    };
    if sender.icmpv6_tx {
        law_filled_checksum_is_right(src, dst, e);
    }
    let t = splice(s, 2, digits);
    assert(splice(e, 2, digits) =~= v.emitted(t));
    law_message_round_trip(v, t);
}

} // verus!
