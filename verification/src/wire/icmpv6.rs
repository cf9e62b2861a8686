//! The frame that Neighbor Discovery messages share with the rest of ICMPv6:
//! type, code and checksum, and where the options start.

use vstd::prelude::*;
use vstd::slice::slice_subrange;
use vstd::std_specs::convert::FromSpecImpl;
use crate::wire::bytes::{
    be_bytes, be_value, lemma_be_bytes_len, put_u16, put_u8, put_zeros, read_u16, splice, zeros,
    Buffer, BufferMut,
};
use crate::wire::ip::Ipv6Address;
use crate::wire::Error;

verus! {

/// The number by which IPv6 names ICMPv6.
pub const PROTOCOL: u8 = 58;

/// The type of a message.
#[derive(Debug, Clone, Copy, PartialEq, Eq, Hash, Structural)]
pub enum Message {
    RouterSolicit,
    RouterAdvert,
    NeighborSolicit,
    NeighborAdvert,
    Redirect,
    /// A message of another kind.
    Unknown(u8),
}

impl Message {
    /// The type that a number stands for.
    pub open spec fn of_code(code: u8) -> Message {
        match code {
            133 => Message::RouterSolicit,
            134 => Message::RouterAdvert,
            135 => Message::NeighborSolicit,
            136 => Message::NeighborAdvert,
            137 => Message::Redirect,
            x => Message::Unknown(x),
        }
    }

    /// The number of the type.
    pub open spec fn code(self) -> u8 {
        match self {
            Message::RouterSolicit => 133,
            Message::RouterAdvert => 134,
            Message::NeighborSolicit => 135,
            Message::NeighborAdvert => 136,
            Message::Redirect => 137,
            Message::Unknown(x) => x,
        }
    }

    /// The number of the type.
    pub fn to_code(self) -> (r: u8)
        ensures
            r == self.code(),
    {
        match self {
            Message::RouterSolicit => 133,
            Message::RouterAdvert => 134,
            Message::NeighborSolicit => 135,
            Message::NeighborAdvert => 136,
            Message::Redirect => 137,
            Message::Unknown(x) => x,
        }
    }

    /// The number of bytes before the options.
    pub open spec fn header_len(self) -> nat {
        match self {
            Message::RouterSolicit => 8,
            Message::RouterAdvert => 16,
            Message::NeighborSolicit => 24,
            Message::NeighborAdvert => 24,
            Message::Redirect => 40,
            Message::Unknown(_) => 4,
        }
    }
}

impl From<u8> for Message {
    fn from(code: u8) -> (r: Message) {
        match code {
            133 => Message::RouterSolicit,
            134 => Message::RouterAdvert,
            135 => Message::NeighborSolicit,
            136 => Message::NeighborAdvert,
            137 => Message::Redirect,
            x => Message::Unknown(x),
        }
    }
}

impl FromSpecImpl<u8> for Message {
    open spec fn obeys_from_spec() -> bool {
        true
    }

    open spec fn from_spec(code: u8) -> Message {
        Message::of_code(code)
    }
}

/// The number of bytes before the options of the message `s`.
pub open spec fn header_len_of(s: Seq<u8>) -> nat {
    Message::of_code(s[0]).header_len()
}

/// Whether the message `s` is there up to its options.
pub open spec fn has_header(s: Seq<u8>) -> bool {
    s.len() >= 4 && s.len() >= header_len_of(s)
}

/// The options of the message `s`.
pub open spec fn payload_of(s: Seq<u8>) -> Seq<u8> {
    s.skip(header_len_of(s) as int)
}

/// The sum of the 16-bit words of `s`, of which an odd last byte is the first
/// half of one.
pub open spec fn word_sum(s: Seq<u8>) -> nat
    decreases s.len(),
{
    if s.len() == 0 {
        0
    } else if s.len() == 1 {
        s[0] as nat * 256
    } else {
        s[0] as nat * 256 + s[1] as nat + word_sum(s.skip(2))
    }
}

/// A sum in ones' complement: carries out of 16 bits are added back in.
pub open spec fn folded(n: nat) -> nat {
    if n == 0 {
        0
    } else {
        ((n - 1) % 65535 + 1) as nat
    }
}

/// The bytes of the pseudo-header of a message of `len` bytes.
pub open spec fn pseudo_header(src: Ipv6Address, dst: Ipv6Address, len: nat) -> Seq<u8> {
    be_bytes(src.bits as nat, 16) + be_bytes(dst.bits as nat, 16) + be_bytes(len, 4) + seq![
        0u8,
        0u8,
        0u8,
        PROTOCOL,
    ]
}

/// The ones' complement sum of a message and its pseudo-header.
pub open spec fn message_sum(src: Ipv6Address, dst: Ipv6Address, s: Seq<u8>) -> nat {
    folded(word_sum(pseudo_header(src, dst, s.len()) + s))
}

/// Adds a word to a sum in ones' complement.
fn add_word(sum: u32, word: u32) -> (r: u32)
    requires
        sum <= 0xffff,
        word <= 0xffff,
    ensures
        r == folded((sum + word) as nat),
        r <= 0xffff,
{
    let t: u32 = sum + word;
    if t > 0xffff {
        t - 0xffff
    } else {
        t
    }
}

/// Carries may be added back in at any point of a sum.
proof fn lemma_folded(a: nat, b: nat)
    ensures
        folded(folded(a) + b) == folded(a + b),
        folded(a) <= 0xffff,
{
}

/// Adds the words of some bytes to a sum in ones' complement.
fn add_bytes(sum: u32, s: &[u8]) -> (r: u32)
    requires
        sum <= 0xffff,
    ensures
        r == folded((sum + word_sum(s@)) as nat),
        r <= 0xffff,
{
    let mut acc: u32 = sum;
    let mut i: usize = 0;
    let n: usize = s.len();
    assert(s@.skip(0) =~= s@);
    while i < n && n - i >= 2
        invariant
            i <= n == s@.len(),
            acc <= 0xffff,
            folded((acc + word_sum(s@.skip(i as int))) as nat) == folded(
                (sum + word_sum(s@)) as nat,
            ),
        decreases n - i,
    {
        let word: u32 = s[i] as u32 * 256 + s[i + 1] as u32;
        proof {
            assert(s@.skip(i as int).skip(2) =~= s@.skip(i + 2));
            lemma_folded((acc + word) as nat, word_sum(s@.skip(i + 2)));
        }
        acc = add_word(acc, word);
        i = i + 2;
    }
    if i < n {
        acc = add_word(acc, s[i] as u32 * 256);
    }
    proof {
        if i == n {
            assert(s@.skip(i as int) =~= Seq::<u8>::empty());
        }
    }
    acc
}

/// The sum of the words of bytes that follow an even number of others.
pub(crate) proof fn lemma_word_sum_add(a: Seq<u8>, b: Seq<u8>)
    requires
        a.len() % 2 == 0,
    ensures
        word_sum(a + b) == word_sum(a) + word_sum(b),
    decreases a.len(),
{
    if a.len() == 0 {
        assert(a + b =~= b);
    } else {
        lemma_word_sum_add(a.skip(2), b);
        assert((a + b).skip(2) =~= a.skip(2) + b);
    }
}

/// The sum of the words of two bytes.
proof fn lemma_word_sum_two(s: Seq<u8>)
    requires
        s.len() == 2,
    ensures
        word_sum(s) == s[0] as nat * 256 + s[1] as nat,
{
    reveal_with_fuel(word_sum, 2);
    assert(s.skip(2) =~= Seq::<u8>::empty());
}

/// Computes the ones' complement sum of a message and its pseudo-header.
fn sum_message(src: &Ipv6Address, dst: &Ipv6Address, s: &[u8]) -> (r: u32)
    requires
        s@.len() <= 0xffff_ffff,
    ensures
        r == message_sum(*src, *dst, s@),
{
    let a = src.octets();
    let b = dst.octets();
    let len: u32 = s.len() as u32;
    let high: u32 = len / 0x1_0000;
    let low: u32 = len % 0x1_0000;
    let sum = add_bytes(0, a.as_slice());
    let sum1 = add_bytes(sum, b.as_slice());
    let sum2 = add_word(sum1, high);
    let sum3 = add_word(sum2, low);
    let sum4 = add_word(sum3, PROTOCOL as u32);
    let r = add_bytes(sum4, s);
    proof {
        let header = pseudo_header(*src, *dst, s@.len());
        let wa = word_sum(a@);
        let wb = word_sum(b@);
        lemma_pseudo_header(*src, *dst, len);
        lemma_word_sum_add(header, s@);
        lemma_folded(wa, wb);
        lemma_folded(wa + wb, high as nat);
        lemma_folded(wa + wb + high as nat, low as nat);
        lemma_folded(wa + wb + high as nat + low as nat, PROTOCOL as nat);
        lemma_folded(wa + wb + high as nat + low as nat + PROTOCOL as nat, word_sum(s@));
    }
    r
}

/// The two words of a length.
proof fn lemma_length_words(len: u32)
    ensures
        word_sum(be_bytes(len as nat, 4)) == len / 0x1_0000 + len % 0x1_0000,
        be_bytes(len as nat, 4).len() == 4,
{
    let n = len as nat;
    let c = be_bytes(n, 4);
    lemma_be_bytes_len(n, 4);
    reveal_with_fuel(be_bytes, 5);
    let x = c.subrange(0, 2);
    let y = c.subrange(2, 4);
    assert(c =~= x + y);
    lemma_word_sum_add(x, y);
    lemma_word_sum_two(x);
    lemma_word_sum_two(y);
    assert(c[3] == n % 256);
    assert(c[2] == n / 256 % 256);
    assert(c[1] == n / 256 / 256 % 256);
    assert(c[0] == n / 256 / 256 / 256 % 256);
}

/// The sum of the words of a pseudo-header.
proof fn lemma_pseudo_header(src: Ipv6Address, dst: Ipv6Address, len: u32)
    ensures
        pseudo_header(src, dst, len as nat).len() == 40,
        word_sum(pseudo_header(src, dst, len as nat)) == word_sum(be_bytes(src.bits as nat, 16))
            + word_sum(be_bytes(dst.bits as nat, 16)) + len / 0x1_0000 + len % 0x1_0000 + PROTOCOL,
{
    let a = be_bytes(src.bits as nat, 16);
    let b = be_bytes(dst.bits as nat, 16);
    let c = be_bytes(len as nat, 4);
    let d = seq![0u8, 0u8, 0u8, PROTOCOL];
    lemma_be_bytes_len(src.bits as nat, 16);
    lemma_be_bytes_len(dst.bits as nat, 16);
    lemma_length_words(len);
    lemma_word_sum_add(a + b + c, d);
    lemma_word_sum_add(a + b, c);
    lemma_word_sum_add(a, b);
    assert(d =~= seq![0u8, 0u8] + seq![0u8, PROTOCOL]);
    lemma_word_sum_add(seq![0u8, 0u8], seq![0u8, PROTOCOL]);
    lemma_word_sum_two(seq![0u8, 0u8]);
    lemma_word_sum_two(seq![0u8, PROTOCOL]);
}

/// A message in a buffer.
#[derive(Debug)]
pub struct Packet<T> {
    buffer: T,
}

impl<T: Buffer> View for Packet<T> {
    type V = Seq<u8>;

    closed spec fn view(&self) -> Seq<u8> {
        self.buffer.bytes()
    }
}

impl<T: Buffer> Packet<T> {
    /// Takes a buffer for a message, whatever it holds.
    pub fn new_unchecked(buffer: T) -> (r: Packet<T>)
        ensures
            r@ == buffer.bytes(),
    {
        Packet { buffer }
    }

    /// Takes a buffer for a message if that is there up to its options.
    pub fn new_checked(buffer: T) -> (r: Result<Packet<T>, Error>)
        ensures
            match r {
                Ok(packet) => packet@ == buffer.bytes() && has_header(packet@),
                Err(Error) => !has_header(buffer.bytes()),
            },
    {
        let packet = Packet::new_unchecked(buffer);
        match packet.check_len() {
            Ok(_) => Ok(packet),
            Err(_) => Err(Error),
        }
    }

    /// Checks that the message is there up to its options.
    pub fn check_len(&self) -> (r: Result<(), Error>)
        ensures
            match r {
                Ok(_) => has_header(self@),
                Err(Error) => !has_header(self@),
            },
    {
        let len = self.buffer.as_bytes().len();
        if len < 4 || len < self.header_len() {
            Err(Error)
        } else {
            Ok(())
        }
    }

    /// Gives the buffer back.
    pub fn into_inner(self) -> (r: T)
        ensures
            r.bytes() == self@,
    {
        self.buffer
    }

    /// The bytes of the message.
    pub fn data(&self) -> (r: &[u8])
        ensures
            r@ == self@,
    {
        self.buffer.as_bytes()
    }

    /// The type of the message.
    pub fn msg_type(&self) -> (r: Message)
        requires
            self@.len() >= 1,
        ensures
            r == Message::of_code(self@[0]),
    {
        Message::from(self.buffer.as_bytes()[0])
    }

    /// The code of the message.
    pub fn msg_code(&self) -> (r: u8)
        requires
            self@.len() >= 2,
        ensures
            r == self@[1],
    {
        self.buffer.as_bytes()[1]
    }

    /// The checksum of the message.
    pub fn checksum(&self) -> (r: u16)
        requires
            self@.len() >= 4,
        ensures
            r as nat == be_value(self@.subrange(2, 4)),
    {
        let field = slice_subrange(self.buffer.as_bytes(), 2, 4);
        assert(field@.subrange(0, 2) =~= field@);
        read_u16(field)
    }

    /// The number of bytes before the options.
    pub fn header_len(&self) -> (r: usize)
        requires
            self@.len() >= 1,
        ensures
            r == header_len_of(self@),
    {
        match self.msg_type() {
            Message::RouterSolicit => 8,
            Message::RouterAdvert => 16,
            Message::NeighborSolicit => 24,
            Message::NeighborAdvert => 24,
            Message::Redirect => 40,
            Message::Unknown(_) => 4,
        }
    }

    /// The options.
    pub fn payload(&self) -> (r: &[u8])
        requires
            has_header(self@),
        ensures
            r@ == payload_of(self@),
    {
        let data = self.buffer.as_bytes();
        let r = slice_subrange(data, self.header_len(), data.len());
        assert(r@ =~= payload_of(self@));
        r
    }

    /// Whether the checksum is right.
    pub fn verify_checksum(&self, src_addr: &Ipv6Address, dst_addr: &Ipv6Address) -> (r: bool)
        requires
            self@.len() <= 0xffff_ffff,
        ensures
            r == (message_sum(*src_addr, *dst_addr, self@) == 0xffff),
    {
        sum_message(src_addr, dst_addr, self.buffer.as_bytes()) == 0xffff
    }
}

impl<'a> Packet<&'a [u8]> {
    /// The bytes of the message, for as long as the buffer lives.
    pub fn buffer(&self) -> (r: &'a [u8])
        ensures
            r@ == self@,
    {
        self.buffer
    }
}

impl<T: BufferMut> Packet<T> {
    /// The bytes of the message, to be written.
    pub fn data_mut(&mut self) -> (r: &mut [u8])
        ensures
            r@ == old(self)@,
            final(self)@ == final(r)@,
    {
        self.buffer.as_bytes_mut()
    }

    /// Sets the type of the message.
    pub fn set_msg_type(&mut self, value: Message)
        requires
            old(self)@.len() >= 1,
        ensures
            final(self)@ == old(self)@.update(0, value.code()),
    {
        put_u8(self.buffer.as_bytes_mut(), 0, value.to_code());
    }

    /// Sets the code of the message.
    pub fn set_msg_code(&mut self, value: u8)
        requires
            old(self)@.len() >= 2,
        ensures
            final(self)@ == old(self)@.update(1, value),
    {
        put_u8(self.buffer.as_bytes_mut(), 1, value);
    }

    /// Sets the checksum of the message.
    pub fn set_checksum(&mut self, value: u16)
        requires
            old(self)@.len() >= 4,
        ensures
            final(self)@ == splice(old(self)@, 2, be_bytes(value as nat, 2)),
    {
        put_u16(self.buffer.as_bytes_mut(), 2, value);
    }

    /// Clears the four bytes behind the checksum, which most messages reserve.
    pub fn clear_reserved(&mut self)
        requires
            old(self)@.len() >= 8,
        ensures
            final(self)@ == splice(old(self)@, 4, zeros(4)),
    {
        put_zeros(self.buffer.as_bytes_mut(), 4, 4);
    }

    /// The options, to be written.
    pub fn payload_mut(&mut self) -> (r: &mut [u8])
        requires
            has_header(old(self)@),
        ensures
            r@ == payload_of(old(self)@),
            final(self)@ == old(self)@.take(header_len_of(old(self)@) as int) + final(r)@,
    {
        let start = self.header_len();
        let data = self.buffer.as_bytes_mut();
        let (_, r) = data.split_at_mut(start);
        r
    }

    /// Computes the checksum and sets it.
    pub fn fill_checksum(&mut self, src_addr: &Ipv6Address, dst_addr: &Ipv6Address)
        requires
            4 <= old(self)@.len() <= 0xffff_ffff,
        ensures
            final(self)@ == with_checksum(*src_addr, *dst_addr, old(self)@),
    {
        let ghost s = self@;
        proof {
            lemma_be_bytes_len(0, 2);
            reveal_with_fuel(be_bytes, 3);
            assert(be_bytes(0, 2) =~= zeros(2));
        }
        self.set_checksum(0);
        let sum = sum_message(src_addr, dst_addr, self.buffer.as_bytes());
        proof {
            lemma_folded(word_sum(pseudo_header(*src_addr, *dst_addr, s.len()) + self@), 0);
            lemma_be_bytes_len((0xffff - sum) as nat, 2);
        }
        self.set_checksum((0xffff - sum) as u16);
        assert(self@ =~= splice(s, 2, be_bytes((0xffff - sum) as nat, 2)));
    }
}

/// The two bytes of the checksum that makes the sum of the message `s` all ones.
pub open spec fn checksum_bytes(src: Ipv6Address, dst: Ipv6Address, s: Seq<u8>) -> Seq<u8> {
    be_bytes((0xffff - message_sum(src, dst, splice(s, 2, zeros(2)))) as nat, 2)
}

/// The message `s` with the checksum that makes its sum all ones.
pub open spec fn with_checksum(src: Ipv6Address, dst: Ipv6Address, s: Seq<u8>) -> Seq<u8> {
    splice(s, 2, checksum_bytes(src, dst, s))
}

/// A message whose checksum was filled in passes the check of its checksum, and
/// is otherwise unchanged.
pub proof fn law_filled_checksum_is_right(src: Ipv6Address, dst: Ipv6Address, s: Seq<u8>)
    requires
        4 <= s.len() <= 0xffff_ffff,
    ensures
        message_sum(src, dst, with_checksum(src, dst, s)) == 0xffff,
        checksum_bytes(src, dst, s).len() == 2,
        with_checksum(src, dst, s).len() == s.len(),
        with_checksum(src, dst, s).take(2) == s.take(2),
        with_checksum(src, dst, s).skip(4) == s.skip(4),
{
    let zeroed = splice(s, 2, zeros(2));
    let h = pseudo_header(src, dst, s.len());
    let sum = word_sum(h + zeroed);
    let c = (0xffff - folded(sum)) as nat;
    let digits = be_bytes(c, 2);
    let after = with_checksum(src, dst, s);
    lemma_be_bytes_len(src.bits as nat, 16);
    lemma_be_bytes_len(dst.bits as nat, 16);
    lemma_be_bytes_len(s.len(), 4);
    lemma_be_bytes_len(c, 2);
    assert(after.take(2) =~= s.take(2));
    assert(after.skip(4) =~= s.skip(4));
    assert(zeroed =~= s.take(2) + zeros(2) + s.skip(4));
    assert(after =~= s.take(2) + digits + s.skip(4));
    lemma_word_sum_add(h, zeroed);
    lemma_word_sum_add(h, after);
    lemma_word_sum_add(s.take(2) + zeros(2), s.skip(4));
    lemma_word_sum_add(s.take(2), zeros(2));
    lemma_word_sum_add(s.take(2) + digits, s.skip(4));
    lemma_word_sum_add(s.take(2), digits);
    lemma_word_sum_two(zeros(2));
    lemma_word_sum_two(digits);
    reveal_with_fuel(be_bytes, 3);
    assert(digits[1] == c % 256);
    assert(digits[0] == c / 256 % 256);
    assert(word_sum(digits) == c);
    assert(word_sum(h + after) == sum + c);
}

} // verus!
