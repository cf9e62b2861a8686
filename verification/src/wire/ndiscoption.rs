//! The options of Neighbor Discovery messages.

use vstd::arithmetic::div_mod::{lemma_fundamental_div_mod, lemma_mod_decreases, lemma_small_mod};
use vstd::arithmetic::power2::{lemma2_to64, lemma_pow2_adds, lemma_pow2_pos, pow2};
use vstd::prelude::*;
use vstd::slice::slice_subrange;
use vstd::std_specs::convert::FromSpecImpl;
use crate::time::Duration;
use crate::wire::bytes::{
    append_bytes, append_u32, append_u8, append_zeros, be_bytes, be_value, lemma_be_bytes_len,
    lemma_bytes_of_multiple, lemma_splice_append, lemma_splice_none, lemma_value_of_bytes, pow256,
    read_u32, splice, zeros,
};
use crate::wire::hwaddr::RawHardwareAddress;
use crate::wire::ip::Ipv6Address;
use crate::wire::ipv6::Ipv6Repr;
use crate::wire::Error;

verus! {

/// How strongly a router recommends a route, or itself as a default router.
#[derive(Debug, Clone, Copy, PartialEq, Eq, PartialOrd, Ord, Hash, Structural)]
pub enum NdiscRoutePreference {
    Low,
    Medium,
    High,
    /// A value that has no meaning.
    Unknown(u8),
}

impl NdiscRoutePreference {
    /// The preference as a number: the greater, the stronger.
    pub open spec fn rank_of(self) -> int {
        match self {
            NdiscRoutePreference::Low => -1,
            NdiscRoutePreference::Medium => 0,
            NdiscRoutePreference::High => 1,
            NdiscRoutePreference::Unknown(_) => 0,
        }
    }

    /// The preference as a number: the greater, the stronger.
    pub fn rank(&self) -> (r: i8)
        ensures
            r == self.rank_of(),
    {
        match self {
            NdiscRoutePreference::Low => -1,
            NdiscRoutePreference::Medium => 0,
            NdiscRoutePreference::High => 1,
            NdiscRoutePreference::Unknown(_) => 0,
        }
    }

    /// The preference that the header of a Router Advertisement stands for: a
    /// value without a meaning is taken as [`NdiscRoutePreference::Medium`].
    pub open spec fn normalized(self) -> NdiscRoutePreference {
        match self {
            NdiscRoutePreference::Unknown(_) => NdiscRoutePreference::Medium,
            p => p,
        }
    }

    /// The preference that the header of a Router Advertisement stands for.
    pub fn normalized_for_router_header(self) -> (r: NdiscRoutePreference)
        ensures
            r == self.normalized(),
    {
        match self {
            NdiscRoutePreference::Unknown(_) => NdiscRoutePreference::Medium,
            p => p,
        }
    }

    /// The preference that a two-bit code stands for.
    pub open spec fn of_code(code: u8) -> NdiscRoutePreference {
        match code {
            0 => NdiscRoutePreference::Medium,
            1 => NdiscRoutePreference::High,
            3 => NdiscRoutePreference::Low,
            x => NdiscRoutePreference::Unknown(x),
        }
    }

    /// The code of the preference.
    pub open spec fn code(self) -> u8 {
        match self {
            NdiscRoutePreference::Medium => 0,
            NdiscRoutePreference::High => 1,
            NdiscRoutePreference::Low => 3,
            NdiscRoutePreference::Unknown(x) => x,
        }
    }

    /// The code of the preference.
    pub fn to_code(self) -> (r: u8)
        ensures
            r == self.code(),
    {
        match self {
            NdiscRoutePreference::Medium => 0,
            NdiscRoutePreference::High => 1,
            NdiscRoutePreference::Low => 3,
            NdiscRoutePreference::Unknown(x) => x,
        }
    }
}

impl From<u8> for NdiscRoutePreference {
    fn from(code: u8) -> (r: NdiscRoutePreference) {
        match code {
            0 => NdiscRoutePreference::Medium,
            1 => NdiscRoutePreference::High,
            3 => NdiscRoutePreference::Low,
            x => NdiscRoutePreference::Unknown(x),
        }
    }
}

impl FromSpecImpl<u8> for NdiscRoutePreference {
    open spec fn obeys_from_spec() -> bool {
        true
    }

    open spec fn from_spec(code: u8) -> NdiscRoutePreference {
        NdiscRoutePreference::of_code(code)
    }
}

/// A route that a router advertises.
#[derive(Debug, Clone, Copy, PartialEq, Eq, Structural)]
pub struct NdiscRouteInformation {
    pub prefix_len: u8,
    pub preference: NdiscRoutePreference,
    pub route_lifetime: Duration,
    pub prefix: Ipv6Address,
}

impl NdiscRouteInformation {
    /// The lifetime that stands for "forever", in seconds.
    pub const INFINITE_SECS: u64 = 0xffff_ffff;

    /// The lifetime that stands for "forever".
    pub open spec fn infinite() -> Duration {
        Duration { micros: 4_294_967_295_000_000 }
    }

    /// The lifetime that stands for "forever".
    pub fn infinite_lifetime() -> (r: Duration)
        ensures
            r == NdiscRouteInformation::infinite(),
    {
        Duration::from_secs(NdiscRouteInformation::INFINITE_SECS)
    }

    /// Whether the option makes sense: the length of its prefix is one that an
    /// address can have, and its preference has a meaning.
    pub open spec fn valid(self) -> bool {
        self.prefix_len <= 128 && !(self.preference is Unknown)
    }

    /// Whether the option makes sense.
    pub fn is_valid_route_info(&self) -> (r: bool)
        ensures
            r == self.valid(),
    {
        self.prefix_len <= 128 && !matches!(self.preference, NdiscRoutePreference::Unknown(_))
    }

    /// Whether the route never expires.
    pub fn has_infinite_lifetime(&self) -> (r: bool)
        ensures
            r == (self.route_lifetime == NdiscRouteInformation::infinite()),
    {
        self.route_lifetime.micros == NdiscRouteInformation::infinite_lifetime().micros
    }

    /// Whether both options speak of the same prefix.
    pub open spec fn agrees(self, other: NdiscRouteInformation) -> bool {
        self.prefix_len == other.prefix_len && self.prefix.leading(self.prefix_len)
            == other.prefix.leading(self.prefix_len)
    }

    /// Whether both options speak of the same prefix.
    pub fn same_prefix(&self, other: &NdiscRouteInformation) -> (r: bool)
        ensures
            r == self.agrees(*other),
    {
        self.prefix_len == other.prefix_len && self.prefix.same_leading(
            &other.prefix,
            self.prefix_len,
        )
    }
}

/// What a prefix may be used for.
#[derive(Debug, Clone, Copy, PartialEq, Eq, Hash, Structural)]
pub struct NdiscPrefixInfoFlags {
    /// The addresses of the prefix are on the link.
    pub on_link: bool,
    /// Hosts may form addresses from the prefix.
    pub addrconf: bool,
}

impl NdiscPrefixInfoFlags {
    /// The bit of [`NdiscPrefixInfoFlags::on_link`].
    pub const ON_LINK: u8 = 0b1000_0000;

    /// The bit of [`NdiscPrefixInfoFlags::addrconf`].
    pub const ADDRCONF: u8 = 0b0100_0000;

    /// The flags that are set in an octet.
    pub open spec fn of_bits(bits: u8) -> NdiscPrefixInfoFlags {
        NdiscPrefixInfoFlags { on_link: bits >= 128, addrconf: bits % 128 >= 64 }
    }

    /// The octet in which exactly these flags are set.
    pub open spec fn octet(self) -> u8 {
        ((if self.on_link {
            128int
        } else {
            0
        }) + (if self.addrconf {
            64int
        } else {
            0
        })) as u8
    }

    /// The flags that are set in an octet. Other bits are ignored.
    pub fn from_bits_truncate(bits: u8) -> (r: NdiscPrefixInfoFlags)
        ensures
            r == NdiscPrefixInfoFlags::of_bits(bits),
    {
        NdiscPrefixInfoFlags { on_link: bits >= 128, addrconf: bits % 128 >= 64 }
    }

    /// The octet in which exactly these flags are set.
    pub fn bits(&self) -> (r: u8)
        ensures
            r == self.octet(),
    {
        let high: u8 = if self.on_link {
            128
        } else {
            0
        };
        if self.addrconf {
            high + 64
        } else {
            high
        }
    }
}

/// A prefix that a router advertises for the link.
#[derive(Debug, Clone, Copy, PartialEq, Eq, Structural)]
pub struct NdiscPrefixInformation {
    pub prefix_len: u8,
    pub flags: NdiscPrefixInfoFlags,
    pub valid_lifetime: Duration,
    pub preferred_lifetime: Duration,
    pub prefix: Ipv6Address,
}

impl NdiscPrefixInformation {
    /// Whether the option makes sense: the length of its prefix is one that an
    /// address can have, and the prefix is not preferred for longer than it is
    /// valid.
    pub open spec fn valid(self) -> bool {
        self.prefix_len <= 128 && self.preferred_lifetime.micros <= self.valid_lifetime.micros
    }

    /// Whether the option makes sense.
    pub fn is_valid_prefix_info(&self) -> (r: bool)
        ensures
            r == self.valid(),
    {
        self.prefix_len <= 128 && self.preferred_lifetime.micros <= self.valid_lifetime.micros
    }
}

/// Whether every option makes sense.
pub open spec fn all_valid(infos: Seq<NdiscRouteInformation>) -> bool {
    forall|i: int| 0 <= i < infos.len() ==> (#[trigger] infos[i]).valid()
}

/// The routes of a Router Advertisement, in the order in which it carries them.
#[derive(Debug)]
pub struct NdiscRouteInformationList {
    entries: Vec<NdiscRouteInformation>,
}

impl View for NdiscRouteInformationList {
    type V = Seq<NdiscRouteInformation>;

    closed spec fn view(&self) -> Seq<NdiscRouteInformation> {
        self.entries@
    }
}

impl NdiscRouteInformationList {
    /// A list without routes.
    pub fn new() -> (r: NdiscRouteInformationList)
        ensures
            r@ == Seq::<NdiscRouteInformation>::empty(),
    {
        NdiscRouteInformationList { entries: Vec::new() }
    }

    /// The list of some routes, if all of them make sense.
    pub fn try_from(infos: &[NdiscRouteInformation]) -> (r: Result<
        NdiscRouteInformationList,
        Error,
    >)
        ensures
            match r {
                Ok(list) => all_valid(infos@) && list@ == infos@,
                Err(Error) => !all_valid(infos@),
            },
    {
        let mut list = NdiscRouteInformationList::new();
        let mut i: usize = 0;
        while i < infos.len()
            invariant
                i <= infos@.len(),
                list@ == infos@.take(i as int),
                all_valid(infos@.take(i as int)),
            decreases infos@.len() - i,
        {
            assert(infos@.take(i + 1) =~= infos@.take(i as int).push(infos@[i as int]));
            if !list.push(infos[i]) {
                return Err(Error);
            }
            i = i + 1;
        }
        assert(infos@.take(i as int) =~= infos@);
        Ok(list)
    }

    /// Appends a route if it makes sense, and tells whether it does.
    pub fn push(&mut self, info: NdiscRouteInformation) -> (r: bool)
        ensures
            r == info.valid(),
            final(self)@ == if info.valid() {
                old(self)@.push(info)
            } else {
                old(self)@
            },
    {
        if info.is_valid_route_info() {
            self.entries.push(info);
            true
        } else {
            false
        }
    }

    /// The routes.
    pub fn iter(&self) -> (r: &[NdiscRouteInformation])
        ensures
            r@ == self@,
    {
        self.entries.as_slice()
    }
}

/// The packet that caused a Redirect.
#[derive(Debug, Clone, Copy, PartialEq, Eq)]
pub struct NdiscRedirectedHeader<'a> {
    pub header: Ipv6Repr,
    pub data: &'a [u8],
}

/// The contents of a [`NdiscRedirectedHeader`].
pub struct RedirectedHeaderView {
    pub header: Ipv6Repr,
    pub data: Seq<u8>,
}

impl<'a> View for NdiscRedirectedHeader<'a> {
    type V = RedirectedHeaderView;

    open spec fn view(&self) -> RedirectedHeaderView {
        RedirectedHeaderView { header: self.header, data: self.data@ }
    }
}

impl RedirectedHeaderView {
    /// Whether the header and the data belong together.
    pub open spec fn whole(self) -> bool {
        self.data.len() == self.header.payload_len
    }
}

/// An option.
#[derive(Debug, Clone, Copy, PartialEq, Eq)]
pub enum NdiscOptionRepr<'a> {
    SourceLinkLayerAddr(RawHardwareAddress),
    TargetLinkLayerAddr(RawHardwareAddress),
    PrefixInformation(NdiscPrefixInformation),
    RedirectedHeader(NdiscRedirectedHeader<'a>),
    Mtu(u32),
    RouteInformation(NdiscRouteInformation),
}

/// The contents of a [`NdiscOptionRepr`].
pub enum OptionView {
    SourceLinkLayerAddr(RawHardwareAddress),
    TargetLinkLayerAddr(RawHardwareAddress),
    PrefixInformation(NdiscPrefixInformation),
    RedirectedHeader(RedirectedHeaderView),
    Mtu(u32),
    RouteInformation(NdiscRouteInformation),
}

impl<'a> View for NdiscOptionRepr<'a> {
    type V = OptionView;

    open spec fn view(&self) -> OptionView {
        match *self {
            NdiscOptionRepr::SourceLinkLayerAddr(a) => OptionView::SourceLinkLayerAddr(a),
            NdiscOptionRepr::TargetLinkLayerAddr(a) => OptionView::TargetLinkLayerAddr(a),
            NdiscOptionRepr::PrefixInformation(p) => OptionView::PrefixInformation(p),
            NdiscOptionRepr::RedirectedHeader(h) => OptionView::RedirectedHeader(h@),
            NdiscOptionRepr::Mtu(m) => OptionView::Mtu(m),
            NdiscOptionRepr::RouteInformation(r) => OptionView::RouteInformation(r),
        }
    }
}

/// A length of time as it stands in an option: whole seconds, of which the last
/// 32 bits count.
pub open spec fn secs_field(d: Duration) -> u32 {
    (d.micros / 1_000_000 % 0x1_0000_0000) as u32
}

/// The length of time that a number of seconds in an option stands for.
pub open spec fn of_secs_field(secs: nat) -> Duration {
    Duration { micros: (secs * 1_000_000) as u64 }
}

/// The number of units of eight bytes that an option of `len` bytes takes.
pub open spec fn units(len: nat) -> nat {
    (len + 7) / 8
}

/// The number of units that an option for a route with this prefix length
/// takes: as much of the prefix is sent as is needed.
pub open spec fn route_units(prefix_len: u8) -> nat {
    if prefix_len == 0 {
        1
    } else if prefix_len <= 64 {
        2
    } else {
        3
    }
}

impl OptionView {
    /// The bytes of the option.
    pub open spec fn bytes(self) -> Seq<u8> {
        match self {
            OptionView::SourceLinkLayerAddr(a) => link_layer_option(1, a),
            OptionView::TargetLinkLayerAddr(a) => link_layer_option(2, a),
            OptionView::PrefixInformation(p) => seq![3u8] + seq![4u8] + seq![p.prefix_len]
                + seq![p.flags.octet()] + be_bytes(secs_field(p.valid_lifetime) as nat, 4)
                + be_bytes(secs_field(p.preferred_lifetime) as nat, 4) + zeros(4) + be_bytes(
                p.prefix.bits as nat,
                16,
            ),
            OptionView::RedirectedHeader(h) => seq![4u8] + seq![
                (units(48 + h.data.len()) % 256) as u8,
            ]
                + zeros(6) + h.header.bytes() + h.data + zeros(
                (8 * units(48 + h.data.len()) - 48 - h.data.len()) as nat,
            ),
            OptionView::Mtu(m) => seq![5u8] + seq![1u8] + zeros(2) + be_bytes(m as nat, 4),
            OptionView::RouteInformation(r) => seq![24u8] + seq![route_units(r.prefix_len) as u8]
                + seq![r.prefix_len] + seq![(r.preference.code() % 4 * 8) as u8] + be_bytes(
                secs_field(r.route_lifetime) as nat,
                4,
            ) + be_bytes(r.prefix.masked(r.prefix_len).bits as nat, 16).take(
                8 * route_units(r.prefix_len) - 8,
            ),
        }
    }

    /// What the bytes of a whole option say.
    pub open spec fn parsed(s: Seq<u8>) -> Option<OptionView> {
        match s[0] {
            1 => if s[1] == 1 {
                Some(
                    OptionView::SourceLinkLayerAddr(
                        RawHardwareAddress::of_bytes(s.subrange(2, 8)),
                    ),
                )
            } else {
                None
            },
            2 => if s[1] == 1 {
                Some(
                    OptionView::TargetLinkLayerAddr(
                        RawHardwareAddress::of_bytes(s.subrange(2, 8)),
                    ),
                )
            } else {
                None
            },
            3 => if s[1] == 4 {
                Some(
                    OptionView::PrefixInformation(
                        NdiscPrefixInformation {
                            prefix_len: s[2],
                            flags: NdiscPrefixInfoFlags::of_bits(s[3]),
                            valid_lifetime: of_secs_field(be_value(s.subrange(4, 8))),
                            preferred_lifetime: of_secs_field(be_value(s.subrange(8, 12))),
                            prefix: Ipv6Address { bits: be_value(s.subrange(16, 32)) as u128 },
                        },
                    ),
                )
            } else {
                None
            },
            4 => match Ipv6Repr::parsed(s.skip(8)) {
                Some(header) => Some(
                    OptionView::RedirectedHeader(
                        RedirectedHeaderView { header, data: s.skip(48) },
                    ),
                ),
                None => None,
            },
            5 => if s[1] == 1 {
                Some(OptionView::Mtu(be_value(s.subrange(4, 8)) as u32))
            } else {
                None
            },
            24 => if route_units(s[2]) <= s[1] <= 3 && s[2] <= 128 {
                Some(
                    OptionView::RouteInformation(
                        NdiscRouteInformation {
                            prefix_len: s[2],
                            preference: NdiscRoutePreference::of_code((s[3] / 8 % 4) as u8),
                            route_lifetime: of_secs_field(be_value(s.subrange(4, 8))),
                            prefix: Ipv6Address {
                                bits: be_value(
                                    s.skip(8) + zeros((24 - 8 * s[1]) as nat),
                                ) as u128,
                            }.masked(s[2]),
                        },
                    ),
                )
            } else {
                None
            },
            _ => None,
        }
    }
}

/// The bytes of an option that holds a link-layer address.
pub open spec fn link_layer_option(kind: u8, a: RawHardwareAddress) -> Seq<u8> {
    seq![kind] + seq![1u8] + a.bytes() + zeros((6 - a.bytes().len()) as nat)
}

/// The number of bytes of the option at the front of `s`.
pub open spec fn option_len(s: Seq<u8>) -> nat {
    s[1] as nat * 8
}

/// Whether `s` has an option at its front: its length is not zero, it is there
/// in full, and it is not too short for what it is to hold.
pub open spec fn has_option(s: Seq<u8>) -> bool {
    &&& s.len() >= 8
    &&& s[1] > 0
    &&& s.len() >= option_len(s)
    &&& s[0] == 3 ==> s[1] >= 4
    &&& s[0] == 4 ==> s[1] >= 6
}

/// The number of bytes of the option at the front of a buffer.
pub fn check_option(buf: &[u8]) -> (r: Result<usize, Error>)
    ensures
        match r {
            Ok(len) => has_option(buf@) && len == option_len(buf@),
            Err(Error) => !has_option(buf@),
        },
{
    if buf.len() < 8 || buf[1] == 0 {
        return Err(Error);
    }
    let len: usize = buf[1] as usize * 8;
    if buf.len() < len || (buf[0] == 3 && buf[1] < 4) || (buf[0] == 4 && buf[1] < 6) {
        return Err(Error);
    }
    Ok(len)
}

/// Reads four bytes as a number of seconds.
fn read_secs(buf: &[u8], at: usize) -> (r: Duration)
    requires
        at + 4 <= buf@.len(),
    ensures
        r == of_secs_field(be_value(buf@.subrange(at as int, at + 4))),
{
    let end: usize = buf.len();
    assert(at + 4 <= end);
    let field = slice_subrange(buf, at, at + 4);
    assert(field@.subrange(0, 4) =~= field@);
    Duration::from_secs(read_u32(field) as u64)
}

/// A length of time in whole seconds, of which the last 32 bits count.
fn secs_of(d: &Duration) -> (r: u32)
    ensures
        r == secs_field(*d),
{
    (d.secs() % 0x1_0000_0000) as u32
}

impl<'a> NdiscOptionRepr<'a> {
    /// Reads an option that is there in full.
    pub fn parse(data: &'a [u8]) -> (r: Result<NdiscOptionRepr<'a>, Error>)
        requires
            has_option(data@),
            data@.len() == option_len(data@),
        ensures
            match r {
                Ok(option) => OptionView::parsed(data@) == Some(option@),
                Err(Error) => OptionView::parsed(data@) is None,
            },
    {
        let count: u8 = data[1];
        match data[0] {
            1 => {
                if count != 1 {
                    return Err(Error);
                }
                let a = RawHardwareAddress::from_bytes(slice_subrange(data, 2, 8));
                Ok(NdiscOptionRepr::SourceLinkLayerAddr(a))
            },
            2 => {
                if count != 1 {
                    return Err(Error);
                }
                let a = RawHardwareAddress::from_bytes(slice_subrange(data, 2, 8));
                Ok(NdiscOptionRepr::TargetLinkLayerAddr(a))
            },
            3 => {
                if count != 4 {
                    return Err(Error);
                }
                let prefix = slice_subrange(data, 16, 32);
                assert(prefix@.subrange(0, 16) =~= prefix@);
                Ok(
                    NdiscOptionRepr::PrefixInformation(
                        NdiscPrefixInformation {
                            prefix_len: data[2],
                            flags: NdiscPrefixInfoFlags::from_bits_truncate(data[3]),
                            valid_lifetime: read_secs(data, 4),
                            preferred_lifetime: read_secs(data, 8),
                            prefix: Ipv6Address::from_octets(prefix),
                        },
                    ),
                )
            },
            4 => {
                let packet = slice_subrange(data, 8, data.len());
                assert(packet@ =~= data@.skip(8));
                match Ipv6Repr::parse(packet) {
                    Ok(header) => {
                        let rest = slice_subrange(data, 48, data.len());
                        assert(rest@ =~= data@.skip(48));
                        Ok(
                            NdiscOptionRepr::RedirectedHeader(
                                NdiscRedirectedHeader { header, data: rest },
                            ),
                        )
                    },
                    Err(_) => Err(Error),
                }
            },
            5 => {
                if count != 1 {
                    return Err(Error);
                }
                let field = slice_subrange(data, 4, 8);
                assert(field@.subrange(0, 4) =~= field@);
                Ok(NdiscOptionRepr::Mtu(read_u32(field)))
            },
            24 => {
                let prefix_len: u8 = data[2];
                if prefix_len > 128 || count > 3 || count < route_units_of(prefix_len) {
                    return Err(Error);
                }
                let mut octets: [u8; 16] = [0; 16];
                let mut i: usize = 0;
                while i + 8 < data.len()
                    invariant
                        data@.len() == 8 * count,
                        1 <= count <= 3,
                        i + 8 <= data@.len(),
                        forall|k: int| 0 <= k < i ==> #[trigger] octets@[k] == data@[8 + k],
                        forall|k: int| i <= k < 16 ==> #[trigger] octets@[k] == 0,
                    decreases data@.len() - i,
                {
                    octets[i] = data[8 + i];
                    i = i + 1;
                }
                assert(octets@ =~= data@.skip(8) + zeros((24 - 8 * count) as nat));
                assert(octets@.subrange(0, 16) =~= octets@);
                Ok(
                    NdiscOptionRepr::RouteInformation(
                        NdiscRouteInformation {
                            prefix_len,
                            preference: NdiscRoutePreference::from(data[3] / 8 % 4),
                            route_lifetime: read_secs(data, 4),
                            prefix: Ipv6Address::from_octets(octets.as_slice()).mask(prefix_len),
                        },
                    ),
                )
            },
            _ => Err(Error),
        }
    }

    /// The number of bytes that the option takes.
    pub fn buffer_len(&self) -> (r: usize)
        requires
            self@ matches OptionView::RedirectedHeader(h) ==> h.data.len() + 55 <= usize::MAX,
        ensures
            r == self@.bytes().len(),
            r % 8 == 0,
            self is SourceLinkLayerAddr || self is TargetLinkLayerAddr ==> r == 8,
            !(self is RedirectedHeader) ==> r <= 32,
    {
        proof {
            lemma_option_len(self@);
        }
        match self {
            NdiscOptionRepr::SourceLinkLayerAddr(a) => (2 + a.len() + 7) / 8 * 8,
            NdiscOptionRepr::TargetLinkLayerAddr(a) => (2 + a.len() + 7) / 8 * 8,
            NdiscOptionRepr::PrefixInformation(_) => 32,
            NdiscOptionRepr::RedirectedHeader(h) => (48 + h.data.len() + 7) / 8 * 8,
            NdiscOptionRepr::Mtu(_) => 8,
            NdiscOptionRepr::RouteInformation(r) => route_units_of(r.prefix_len) as usize * 8,
        }
    }

    /// Writes the option at `at`.
    pub fn emit(&self, buf: &mut [u8], at: usize)
        requires
            self@ matches OptionView::RedirectedHeader(h) ==> h.whole(),
            at + self@.bytes().len() <= old(buf)@.len(),
        ensures
            final(buf)@ == splice(old(buf)@, at as int, self@.bytes()),
    {
        proof {
            lemma_option_len(self@);
            lemma_splice_none(buf@, at as int);
        }
        let end: usize = buf.len();
        let ghost s = buf@;
        let ghost w = Seq::<u8>::empty();
        match self {
            NdiscOptionRepr::SourceLinkLayerAddr(a) => {
                emit_link_layer_option(1, a, buf, at);
            },
            NdiscOptionRepr::TargetLinkLayerAddr(a) => {
                emit_link_layer_option(2, a, buf, at);
            },
            NdiscOptionRepr::PrefixInformation(p) => {
                assert(at + 32 <= end);
                let valid: u32 = secs_of(&p.valid_lifetime);
                let preferred: u32 = secs_of(&p.preferred_lifetime);
                proof {
                    lemma_be_bytes_len(valid as nat, 4);
                    lemma_be_bytes_len(preferred as nat, 4);
                    lemma_be_bytes_len(p.prefix.bits as nat, 16);
                }
                append_u8(buf, at, 3, Ghost(s), Ghost(w));
                let ghost w = w + seq![3u8];
                append_u8(buf, at + 1, 4, Ghost(s), Ghost(w));
                let ghost w = w + seq![4u8];
                append_u8(buf, at + 2, p.prefix_len, Ghost(s), Ghost(w));
                let ghost w = w + seq![p.prefix_len];
                let flags: u8 = p.flags.bits();
                append_u8(buf, at + 3, flags, Ghost(s), Ghost(w));
                let ghost w = w + seq![flags];
                append_u32(buf, at + 4, valid, Ghost(s), Ghost(w));
                let ghost w = w + be_bytes(valid as nat, 4);
                append_u32(buf, at + 8, preferred, Ghost(s), Ghost(w));
                let ghost w = w + be_bytes(preferred as nat, 4);
                append_zeros(buf, at + 12, 4, Ghost(s), Ghost(w));
                let ghost w = w + zeros(4);
                let prefix = p.prefix.octets();
                append_bytes(buf, at + 16, prefix.as_slice(), Ghost(s), Ghost(w));
                assert(w + prefix@ =~= self@.bytes());
            },
            NdiscOptionRepr::RedirectedHeader(h) => {
                let len: usize = h.data.len();
                let count: usize = (48 + len + 7) / 8;
                assert(at + 8 * count <= end);
                let octet: u8 = (count % 256) as u8;
                append_u8(buf, at, 4, Ghost(s), Ghost(w));
                let ghost w = w + seq![4u8];
                append_u8(buf, at + 1, octet, Ghost(s), Ghost(w));
                let ghost w = w + seq![octet];
                append_zeros(buf, at + 2, 6, Ghost(s), Ghost(w));
                let ghost w = w + zeros(6);
                proof {
                    h.header.lemma_len();
                    lemma_splice_append(s, at as int, w, h.header.bytes());
                }
                h.header.emit(buf, at + 8);
                let ghost w = w + h.header.bytes();
                append_bytes(buf, at + 48, h.data, Ghost(s), Ghost(w));
                let ghost w = w + h.data@;
                append_zeros(buf, at + 48 + len, 8 * count - 48 - len, Ghost(s), Ghost(w));
                assert(w + zeros((8 * count - 48 - len) as nat) =~= self@.bytes());
            },
            NdiscOptionRepr::Mtu(m) => {
                assert(at + 8 <= end);
                proof {
                    lemma_be_bytes_len(*m as nat, 4);
                }
                append_u8(buf, at, 5, Ghost(s), Ghost(w));
                let ghost w = w + seq![5u8];
                append_u8(buf, at + 1, 1, Ghost(s), Ghost(w));
                let ghost w = w + seq![1u8];
                append_zeros(buf, at + 2, 2, Ghost(s), Ghost(w));
                let ghost w = w + zeros(2);
                append_u32(buf, at + 4, *m, Ghost(s), Ghost(w));
                assert(w + be_bytes(*m as nat, 4) =~= self@.bytes());
            },
            NdiscOptionRepr::RouteInformation(r) => {
                let count: u8 = route_units_of(r.prefix_len);
                assert(at + 8 * count <= end);
                let lifetime: u32 = secs_of(&r.route_lifetime);
                let octets = r.prefix.mask(r.prefix_len).octets();
                proof {
                    lemma_be_bytes_len(lifetime as nat, 4);
                    lemma_be_bytes_len(r.prefix.masked(r.prefix_len).bits as nat, 16);
                }
                append_u8(buf, at, 24, Ghost(s), Ghost(w));
                let ghost w = w + seq![24u8];
                append_u8(buf, at + 1, count, Ghost(s), Ghost(w));
                let ghost w = w + seq![count];
                append_u8(buf, at + 2, r.prefix_len, Ghost(s), Ghost(w));
                let ghost w = w + seq![r.prefix_len];
                let preference: u8 = r.preference.to_code() % 4 * 8;
                append_u8(buf, at + 3, preference, Ghost(s), Ghost(w));
                let ghost w = w + seq![preference];
                append_u32(buf, at + 4, lifetime, Ghost(s), Ghost(w));
                let ghost w = w + be_bytes(lifetime as nat, 4);
                let sent: usize = 8 * count as usize - 8;
                let prefix = slice_subrange(octets.as_slice(), 0, sent);
                append_bytes(buf, at + 8, prefix, Ghost(s), Ghost(w));
                assert(octets@.take(sent as int) =~= prefix@);
                assert(w + prefix@ =~= self@.bytes());
            },
        }
    }
}

/// The number of units that an option for a route with this prefix length
/// takes.
fn route_units_of(prefix_len: u8) -> (r: u8)
    ensures
        r == route_units(prefix_len),
{
    if prefix_len == 0 {
        1
    } else if prefix_len <= 64 {
        2
    } else {
        3
    }
}

/// Writes an option that holds a link-layer address at `at`.
fn emit_link_layer_option(kind: u8, a: &RawHardwareAddress, buf: &mut [u8], at: usize)
    requires
        at + link_layer_option(kind, *a).len() <= old(buf)@.len(),
    ensures
        final(buf)@ == splice(old(buf)@, at as int, link_layer_option(kind, *a)),
{
    proof {
        lemma_splice_none(buf@, at as int);
    }
    let b = a.as_bytes();
    let end: usize = buf.len();
    assert(at + 8 <= end);
    let ghost s = buf@;
    let ghost w = Seq::<u8>::empty();
    append_u8(buf, at, kind, Ghost(s), Ghost(w));
    let ghost w = w + seq![kind];
    append_u8(buf, at + 1, 1, Ghost(s), Ghost(w));
    let ghost w = w + seq![1u8];
    append_bytes(buf, at + 2, b.as_slice(), Ghost(s), Ghost(w));
    let ghost w = w + b@;
    append_zeros(buf, at + 2 + b.len(), 6 - b.len(), Ghost(s), Ghost(w));
    assert(w + zeros((6 - b@.len()) as nat) =~= link_layer_option(kind, *a));
}

/// The number of bytes of an option, but for those that hold a link-layer
/// address.
pub(crate) proof fn lemma_option_len(v: OptionView)
    ensures
        match v {
            OptionView::SourceLinkLayerAddr(_) => true,
            OptionView::TargetLinkLayerAddr(_) => true,
            OptionView::PrefixInformation(_) => v.bytes().len() == 32,
            OptionView::RedirectedHeader(h) => v.bytes().len() == 8 * units(48 + h.data.len()),
            OptionView::Mtu(_) => v.bytes().len() == 8,
            OptionView::RouteInformation(r) => v.bytes().len() == 8 * route_units(r.prefix_len),
        },
{
    match v {
        OptionView::SourceLinkLayerAddr(_) => {},
        OptionView::TargetLinkLayerAddr(_) => {},
        OptionView::PrefixInformation(p) => {
            lemma_be_bytes_len(secs_field(p.valid_lifetime) as nat, 4);
            lemma_be_bytes_len(secs_field(p.preferred_lifetime) as nat, 4);
            lemma_be_bytes_len(p.prefix.bits as nat, 16);
        },
        OptionView::RedirectedHeader(h) => {
            h.header.lemma_len();
        },
        OptionView::Mtu(m) => {
            lemma_be_bytes_len(m as nat, 4);
        },
        OptionView::RouteInformation(r) => {
            lemma_be_bytes_len(secs_field(r.route_lifetime) as nat, 4);
            lemma_be_bytes_len(r.prefix.masked(r.prefix_len).bits as nat, 16);
        },
    }
}

/// Whether a length of time can stand in an option as it is.
pub open spec fn in_whole_secs(d: Duration) -> bool {
    d.micros % 1_000_000 == 0 && d.micros / 1_000_000 <= 0xffff_ffff
}

impl OptionView {
    /// Whether an option holds nothing that its bytes do not tell: lengths of
    /// time are whole seconds, the prefix of a route ends with the bits that
    /// count, addresses are of full length, and data fill their last unit.
    pub open spec fn canonical(self) -> bool {
        match self {
            OptionView::SourceLinkLayerAddr(a) => a.fits() && a.bytes().len() == 6,
            OptionView::TargetLinkLayerAddr(a) => a.fits() && a.bytes().len() == 6,
            OptionView::PrefixInformation(p) => in_whole_secs(p.valid_lifetime) && in_whole_secs(
                p.preferred_lifetime,
            ),
            OptionView::RedirectedHeader(h) => h.whole() && h.data.len() % 8 == 0 && units(
                48 + h.data.len(),
            ) <= 255,
            OptionView::Mtu(_) => true,
            OptionView::RouteInformation(r) => r.canonical(),
        }
    }
}

impl NdiscRouteInformation {
    /// Whether the option holds nothing that its bytes do not tell.
    pub open spec fn canonical(self) -> bool {
        self.prefix_len <= 128 && NdiscRoutePreference::of_code(
            (self.preference.code() % 4) as u8,
        ) == self.preference && in_whole_secs(self.route_lifetime) && self.prefix
            == self.prefix.masked(self.prefix_len)
    }
}

/// The bytes of an option are an option, and reading them gives the option
/// back.
pub proof fn law_option_round_trip(v: OptionView)
    requires
        v.canonical(),
    ensures
        OptionView::parsed(v.bytes()) == Some(v),
        has_option(v.bytes()),
        option_len(v.bytes()) == v.bytes().len(),
{
    match v {
        OptionView::SourceLinkLayerAddr(a) => {
            lemma_link_layer_round_trip(1, a);
        },
        OptionView::TargetLinkLayerAddr(a) => {
            lemma_link_layer_round_trip(2, a);
        },
        OptionView::PrefixInformation(p) => {
            lemma_prefix_round_trip(p);
        },
        OptionView::RedirectedHeader(h) => {
            lemma_redirected_round_trip(h);
        },
        OptionView::Mtu(m) => {
            lemma_mtu_round_trip(m);
        },
        OptionView::RouteInformation(r) => {
            lemma_route_round_trip(r);
        },
    }
}

/// A number of 32 bits is read back from its four digits.
proof fn lemma_u32_bytes(n: u32)
    ensures
        be_bytes(n as nat, 4).len() == 4,
        be_value(be_bytes(n as nat, 4)) == n as nat,
{
    reveal_with_fuel(pow256, 5);
    lemma_be_bytes_len(n as nat, 4);
    lemma_value_of_bytes(n as nat, 4);
}

/// Whole seconds are read back as they were.
proof fn lemma_secs_field(d: Duration)
    requires
        in_whole_secs(d),
    ensures
        of_secs_field(secs_field(d) as nat) == d,
{
}

proof fn lemma_link_layer_round_trip(kind: u8, a: RawHardwareAddress)
    requires
        a.fits(),
        a.bytes().len() == 6,
    ensures
        link_layer_option(kind, a).len() == 8,
        link_layer_option(kind, a)[0] == kind,
        link_layer_option(kind, a)[1] == 1,
        RawHardwareAddress::of_bytes(link_layer_option(kind, a).subrange(2, 8)) == a,
{
    assert(link_layer_option(kind, a).subrange(2, 8) =~= a.bytes());
    a.law_bytes_round_trip();
}

proof fn lemma_prefix_round_trip(p: NdiscPrefixInformation)
    requires
        OptionView::PrefixInformation(p).canonical(),
    ensures
        OptionView::parsed(OptionView::PrefixInformation(p).bytes()) == Some(
            OptionView::PrefixInformation(p),
        ),
        OptionView::PrefixInformation(p).bytes().len() == 32,
        OptionView::PrefixInformation(p).bytes()[0] == 3,
        OptionView::PrefixInformation(p).bytes()[1] == 4,
{
    let s = OptionView::PrefixInformation(p).bytes();
    let valid = secs_field(p.valid_lifetime);
    let preferred = secs_field(p.preferred_lifetime);
    lemma_u32_bytes(valid);
    lemma_u32_bytes(preferred);
    lemma_be_bytes_len(p.prefix.bits as nat, 16);
    lemma_address_bytes(p.prefix);
    lemma_secs_field(p.valid_lifetime);
    lemma_secs_field(p.preferred_lifetime);
    assert(s.subrange(4, 8) =~= be_bytes(valid as nat, 4));
    assert(s.subrange(8, 12) =~= be_bytes(preferred as nat, 4));
    assert(s.subrange(16, 32) =~= be_bytes(p.prefix.bits as nat, 16));
    assert(s[0] == 3 && s[1] == 4 && s[2] == p.prefix_len && s[3] == p.flags.octet());
}

proof fn lemma_redirected_round_trip(h: RedirectedHeaderView)
    requires
        OptionView::RedirectedHeader(h).canonical(),
    ensures
        OptionView::parsed(OptionView::RedirectedHeader(h).bytes()) == Some(
            OptionView::RedirectedHeader(h),
        ),
        OptionView::RedirectedHeader(h).bytes().len() == 48 + h.data.len(),
        OptionView::RedirectedHeader(h).bytes()[0] == 4,
        OptionView::RedirectedHeader(h).bytes()[1] * 8 == 48 + h.data.len(),
{
    let s = OptionView::RedirectedHeader(h).bytes();
    h.header.law_header_round_trip(h.data);
    assert(s.skip(8) =~= h.header.bytes() + h.data);
    assert(s.skip(48) =~= h.data);
}

proof fn lemma_mtu_round_trip(m: u32)
    ensures
        OptionView::parsed(OptionView::Mtu(m).bytes()) == Some(OptionView::Mtu(m)),
        OptionView::Mtu(m).bytes().len() == 8,
        OptionView::Mtu(m).bytes()[0] == 5,
        OptionView::Mtu(m).bytes()[1] == 1,
{
    lemma_u32_bytes(m);
    assert(OptionView::Mtu(m).bytes().subrange(4, 8) =~= be_bytes(m as nat, 4));
}

proof fn lemma_route_round_trip(r: NdiscRouteInformation)
    requires
        r.canonical(),
    ensures
        OptionView::parsed(OptionView::RouteInformation(r).bytes()) == Some(
            OptionView::RouteInformation(r),
        ),
        OptionView::RouteInformation(r).bytes().len() == 8 * route_units(r.prefix_len),
        OptionView::RouteInformation(r).bytes()[0] == 24,
        OptionView::RouteInformation(r).bytes()[1] == route_units(r.prefix_len),
{
    let s = OptionView::RouteInformation(r).bytes();
    let lifetime = secs_field(r.route_lifetime);
    let n = route_units(r.prefix_len) as int;
    let all = be_bytes(r.prefix.bits as nat, 16);
    lemma_u32_bytes(lifetime);
    lemma_secs_field(r.route_lifetime);
    lemma_be_bytes_len(r.prefix.bits as nat, 16);
    assert(s.subrange(4, 8) =~= be_bytes(lifetime as nat, 4));
    assert(s[0] == 24 && s[1] == n && s[2] == r.prefix_len);
    assert(s[3] == r.preference.code() % 4 * 8);
    lemma_masked_bytes(r.prefix, r.prefix_len);
    assert(s.skip(8) =~= all.take(8 * n - 8));
    assert(s.skip(8) + zeros((24 - 8 * n) as nat) =~= all);
    lemma_address_bytes(r.prefix);
}

/// The octets of an address spell the address.
proof fn lemma_address_bytes(a: Ipv6Address)
    ensures
        be_value(be_bytes(a.bits as nat, 16)) == a.bits as nat,
{
    reveal_with_fuel(pow256, 17);
    lemma_value_of_bytes(a.bits as nat, 16);
}

/// The octets that are not sent of a prefix are zero.
proof fn lemma_masked_bytes(prefix: Ipv6Address, len: u8)
    requires
        prefix == prefix.masked(len),
        len <= 128,
    ensures
        be_bytes(prefix.bits as nat, 16).take(8 * route_units(len) - 8) + zeros(
            (24 - 8 * route_units(len)) as nat,
        ) == be_bytes(prefix.bits as nat, 16),
{
    let all = be_bytes(prefix.bits as nat, 16);
    lemma_be_bytes_len(prefix.bits as nat, 16);
    reveal_with_fuel(pow256, 17);
    lemma2_to64();
    lemma_pow2_adds(64, 64);
    if len == 0 {
        lemma_small_mod(prefix.bits as nat, pow2(128));
        assert(prefix.bits == 0);
        lemma_bytes_of_multiple(0, 0, 16);
        assert(all =~= be_bytes(0, 0) + zeros(16));
        assert(all.take(0) + zeros(16) =~= all);
    } else if len <= 64 {
        let d = pow2((128 - len) as nat);
        let e = pow2((64 - len) as nat);
        lemma_pow2_pos((128 - len) as nat);
        lemma_pow2_pos((64 - len) as nat);
        lemma_pow2_adds(64, (64 - len) as nat);
        lemma_mod_decreases(prefix.bits as nat, d);
        assert(prefix.bits as int % d as int == 0);
        let q = prefix.bits as int / d as int;
        lemma_fundamental_div_mod(prefix.bits as int, d as int);
        let hi = (e * q) as nat;
        assert(prefix.bits as nat == hi * pow256(8)) by (nonlinear_arith)
            requires
                prefix.bits as int == d * q,
                d == pow2(64) * e,
                pow2(64) == pow256(8),
                hi == e * q,
                q >= 0,
        ;
        lemma_bytes_of_multiple(hi, 8, 8);
        lemma_be_bytes_len(hi, 8);
        assert(all.take(8) + zeros(8) =~= all);
    } else {
        assert(all.take(16) + zeros(0) =~= all);
    }
}

/// The routes that the options `s` carry and that make sense, in order, if `s`
/// is made of whole options.
pub open spec fn carried_routes(s: Seq<u8>) -> Option<Seq<NdiscRouteInformation>>
    decreases s.len(),
{
    if s.len() == 0 {
        Some(Seq::empty())
    } else if !has_option(s) {
        None
    } else {
        let n = option_len(s) as int;
        match (OptionView::parsed(s.take(n)), carried_routes(s.skip(n))) {
            (Some(OptionView::RouteInformation(r)), Some(rest)) if r.valid() => Some(
                seq![r] + rest,
            ),
            (_, rest) => rest,
        }
    }
}

impl NdiscRouteInformationList {
    /// Reads the routes that the options of a Router Advertisement carry. Those
    /// that do not make sense are left out.
    pub fn parse(options: &[u8]) -> (r: Result<NdiscRouteInformationList, Error>)
        ensures
            match r {
                Ok(list) => carried_routes(options@) == Some(list@) && all_valid(list@),
                Err(Error) => carried_routes(options@) is None,
            },
    {
        let mut list = NdiscRouteInformationList::new();
        let mut offset: usize = 0;
        proof {
            assert(options@.skip(0) =~= options@);
            if let Some(rest) = carried_routes(options@) {
                assert(list@ + rest =~= rest);
            }
        }
        while offset < options.len()
            invariant
                offset <= options@.len(),
                all_valid(list@),
                match carried_routes(options@.skip(offset as int)) {
                    Some(rest) => carried_routes(options@) == Some(list@ + rest),
                    None => carried_routes(options@) is None,
                },
            decreases options@.len() - offset,
        {
            let ghost before = list@;
            let rest = slice_subrange(options, offset, options.len());
            assert(rest@ =~= options@.skip(offset as int));
            let len: usize = match check_option(rest) {
                Ok(len) => len,
                Err(_) => {
                    return Err(Error);
                },
            };
            let option = slice_subrange(rest, 0, len);
            assert(option@ =~= rest@.take(len as int));
            if let Ok(NdiscOptionRepr::RouteInformation(info)) = NdiscOptionRepr::parse(option) {
                let _ = list.push(info);
                proof {
                    if let Some(more) = carried_routes(rest@.skip(len as int)) {
                        assert(before + (seq![info] + more) =~= before.push(info) + more);
                    }
                }
            }
            assert(rest@.skip(len as int) =~= options@.skip(offset + len));
            offset = offset + len;
        }
        assert(options@.skip(offset as int) =~= Seq::<u8>::empty());
        assert(list@ + Seq::<NdiscRouteInformation>::empty() =~= list@);
        Ok(list)
    }
}

} // verus!
