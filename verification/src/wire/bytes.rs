//! Byte buffers, and integers in network byte order.

use byteorder::{ByteOrder, NetworkEndian};
use vstd::prelude::*;

verus! {

/// The number that the bytes `s` spell, most significant byte first.
pub open spec fn be_value(s: Seq<u8>) -> nat
    decreases s.len(),
{
    if s.len() == 0 {
        0
    } else {
        be_value(s.drop_last()) * 256 + s.last() as nat
    }
}

/// The last `n` base-256 digits of `v`, most significant digit first.
pub open spec fn be_bytes(v: nat, n: nat) -> Seq<u8>
    decreases n,
{
    if n == 0 {
        Seq::empty()
    } else {
        be_bytes(v / 256, (n - 1) as nat).push((v % 256) as u8)
    }
}

/// The number 256 to the power `n`.
pub open spec fn pow256(n: nat) -> nat
    decreases n,
{
    if n == 0 {
        1
    } else {
        pow256((n - 1) as nat) * 256
    }
}

/// Writing a number as `n` digits gives `n` bytes.
pub proof fn lemma_be_bytes_len(v: nat, n: nat)
    ensures
        be_bytes(v, n).len() == n,
    decreases n,
{
    if n > 0 {
        lemma_be_bytes_len(v / 256, (n - 1) as nat);
    }
}

/// Reading back the `n` digits of a number that has no more than `n` digits
/// gives the number.
pub proof fn lemma_value_of_bytes(v: nat, n: nat)
    requires
        v < pow256(n),
    ensures
        be_value(be_bytes(v, n)) == v,
    decreases n,
{
    lemma_be_bytes_len(v, n);
    if n > 0 {
        assert(v / 256 < pow256((n - 1) as nat));
        lemma_value_of_bytes(v / 256, (n - 1) as nat);
        assert(be_bytes(v, n).drop_last() =~= be_bytes(v / 256, (n - 1) as nat));
    }
}

/// Writing the number that some bytes spell gives the bytes.
pub proof fn lemma_bytes_of_value(s: Seq<u8>)
    ensures
        be_value(s) < pow256(s.len()),
        be_bytes(be_value(s), s.len()) == s,
    decreases s.len(),
{
    if s.len() > 0 {
        lemma_bytes_of_value(s.drop_last());
        let hi = be_value(s.drop_last());
        let lo = s.last() as nat;
        assert((hi * 256 + lo) / 256 == hi);
        assert((hi * 256 + lo) % 256 == lo);
        assert(s.drop_last().push(s.last()) =~= s);
    } else {
        assert(be_bytes(0, 0) =~= s);
    }
}

/// The buffer `s` with the bytes from `at` on replaced by `b`.
pub open spec fn splice(s: Seq<u8>, at: int, b: Seq<u8>) -> Seq<u8> {
    s.subrange(0, at) + b + s.subrange(at + b.len(), s.len() as int)
}

/// Reads a 16-bit number: `NetworkEndian::read_u16`. The contract claims that
/// the result is the number that the first two bytes spell.
#[verifier::external_body]
pub(crate) fn read_u16(buf: &[u8]) -> (r: u16)
    requires
        buf@.len() >= 2,
    ensures
        r as nat == be_value(buf@.subrange(0, 2)),
{
    NetworkEndian::read_u16(buf)
}

/// Reads a 32-bit number: `NetworkEndian::read_u32`. The contract claims that
/// the result is the number that the first four bytes spell.
#[verifier::external_body]
pub(crate) fn read_u32(buf: &[u8]) -> (r: u32)
    requires
        buf@.len() >= 4,
    ensures
        r as nat == be_value(buf@.subrange(0, 4)),
{
    NetworkEndian::read_u32(buf)
}

/// Writes a 16-bit number: `NetworkEndian::write_u16`. The contract claims that
/// the first two bytes become the digits of the number and that the others
/// stay.
#[verifier::external_body]
pub(crate) fn write_u16(buf: &mut [u8], n: u16)
    requires
        old(buf)@.len() >= 2,
    ensures
        final(buf)@ == splice(old(buf)@, 0, be_bytes(n as nat, 2)),
{
    NetworkEndian::write_u16(buf, n)
}

/// Writes a 32-bit number: `NetworkEndian::write_u32`. The contract claims that
/// the first four bytes become the digits of the number and that the others
/// stay.
#[verifier::external_body]
pub(crate) fn write_u32(buf: &mut [u8], n: u32)
    requires
        old(buf)@.len() >= 4,
    ensures
        final(buf)@ == splice(old(buf)@, 0, be_bytes(n as nat, 4)),
{
    NetworkEndian::write_u32(buf, n)
}

/// A byte buffer that can be read.
pub trait Buffer {
    /// The bytes that the buffer holds.
    spec fn bytes(&self) -> Seq<u8>;

    /// The bytes, as a slice.
    fn as_bytes(&self) -> (s: &[u8])
        ensures
            s@ == self.bytes(),
    ;
}

/// A byte buffer that can be read and written.
pub trait BufferMut: Buffer {
    /// The bytes, as a slice that can be written.
    fn as_bytes_mut(&mut self) -> (s: &mut [u8])
        ensures
            s@ == old(self).bytes(),
            final(self).bytes() == final(s)@,
    ;
}

impl<'a> Buffer for &'a [u8] {
    open spec fn bytes(&self) -> Seq<u8> {
        (*self)@
    }

    fn as_bytes(&self) -> (s: &[u8]) {
        *self
    }
}

impl<'a> Buffer for &'a mut [u8] {
    open spec fn bytes(&self) -> Seq<u8> {
        (**self)@
    }

    fn as_bytes(&self) -> (s: &[u8]) {
        &**self
    }
}

impl<'a> BufferMut for &'a mut [u8] {
    fn as_bytes_mut(&mut self) -> (s: &mut [u8]) {
        &mut **self
    }
}

impl Buffer for Vec<u8> {
    open spec fn bytes(&self) -> Seq<u8> {
        self@
    }

    fn as_bytes(&self) -> (s: &[u8]) {
        self.as_slice()
    }
}

impl BufferMut for Vec<u8> {
    fn as_bytes_mut(&mut self) -> (s: &mut [u8]) {
        self.as_mut_slice()
    }
}

/// Writes one byte at `at`.
pub fn put_u8(buf: &mut [u8], at: usize, x: u8)
    requires
        at < old(buf)@.len(),
    ensures
        final(buf)@ == old(buf)@.update(at as int, x),
{
    buf[at] = x;
}

/// Writes a 16-bit number at `at`.
pub fn put_u16(buf: &mut [u8], at: usize, n: u16)
    requires
        at + 2 <= old(buf)@.len(),
    ensures
        final(buf)@ == splice(old(buf)@, at as int, be_bytes(n as nat, 2)),
{
    proof {
        lemma_be_bytes_len(n as nat, 2);
    }
    let (_, tail) = buf.split_at_mut(at);
    write_u16(tail, n);
}

/// Writes a 32-bit number at `at`.
pub fn put_u32(buf: &mut [u8], at: usize, n: u32)
    requires
        at + 4 <= old(buf)@.len(),
    ensures
        final(buf)@ == splice(old(buf)@, at as int, be_bytes(n as nat, 4)),
{
    proof {
        lemma_be_bytes_len(n as nat, 4);
    }
    let (_, tail) = buf.split_at_mut(at);
    write_u32(tail, n);
}

/// Writes some bytes at `at`.
pub fn put_bytes(buf: &mut [u8], at: usize, b: &[u8])
    requires
        at + b@.len() <= old(buf)@.len(),
    ensures
        final(buf)@ == splice(old(buf)@, at as int, b@),
{
    let ghost start = buf@;
    let len: usize = buf.len();
    let mut i: usize = 0;
    assert(splice(start, at as int, b@.take(0)) =~= start);
    while i < b.len()
        invariant
            i <= b@.len(),
            at + b@.len() <= start.len() == len,
            buf@ == splice(start, at as int, b@.take(i as int)),
        decreases b@.len() - i,
    {
        buf[at + i] = b[i];
        assert(buf@ =~= splice(start, at as int, b@.take(i + 1)));
        i = i + 1;
    }
    assert(b@.take(i as int) =~= b@);
}

/// `n` bytes that are zero.
pub open spec fn zeros(n: nat) -> Seq<u8> {
    Seq::new(n, |i: int| 0u8)
}

/// Writes `n` bytes that are zero at `at`.
pub fn put_zeros(buf: &mut [u8], at: usize, n: usize)
    requires
        at + n <= old(buf)@.len(),
    ensures
        final(buf)@ == splice(old(buf)@, at as int, zeros(n as nat)),
{
    let ghost start = buf@;
    let len: usize = buf.len();
    let mut i: usize = 0;
    assert(splice(start, at as int, zeros(0)) =~= start);
    while i < n
        invariant
            i <= n,
            at + n <= start.len() == len,
            buf@ == splice(start, at as int, zeros(i as nat)),
        decreases n - i,
    {
        buf[at + i] = 0;
        assert(buf@ =~= splice(start, at as int, zeros((i + 1) as nat)));
        i = i + 1;
    }
}

/// Replacing some bytes and then those behind them replaces both.
pub proof fn lemma_splice_append(s: Seq<u8>, at: int, a: Seq<u8>, b: Seq<u8>)
    requires
        0 <= at,
        at + a.len() + b.len() <= s.len(),
    ensures
        splice(splice(s, at, a), at + a.len(), b) == splice(s, at, a + b),
        splice(s, at, a).len() == s.len(),
{
    assert(splice(splice(s, at, a), at + a.len(), b) =~= splice(s, at, a + b));
}

/// Replacing one byte is replacing a sequence of one.
pub proof fn lemma_splice_one(s: Seq<u8>, at: int, x: u8)
    requires
        0 <= at < s.len(),
    ensures
        s.update(at, x) == splice(s, at, seq![x]),
{
    assert(s.update(at, x) =~= splice(s, at, seq![x]));
}

/// Replacing no bytes changes nothing.
pub proof fn lemma_splice_none(s: Seq<u8>, at: int)
    requires
        0 <= at <= s.len(),
    ensures
        splice(s, at, Seq::empty()) == s,
{
    assert(splice(s, at, Seq::empty()) =~= s);
}

/// Writes one byte behind `w`, which was written over a part of `s`.
pub(crate) fn append_u8(
    buf: &mut [u8],
    at: usize,
    x: u8,
    Ghost(s): Ghost<Seq<u8>>,
    Ghost(w): Ghost<Seq<u8>>,
)
    requires
        w.len() <= at,
        at + 1 <= s.len(),
        old(buf)@ == splice(s, at - w.len(), w),
    ensures
        final(buf)@ == splice(s, at - w.len(), w + seq![x]),
{
    proof {
        lemma_splice_one(buf@, at as int, x);
        lemma_splice_append(s, at - w.len(), w, seq![x]);
    }
    put_u8(buf, at, x);
}

/// Writes a 16-bit number behind `w`, which was written over a part of `s`.
pub(crate) fn append_u16(
    buf: &mut [u8],
    at: usize,
    n: u16,
    Ghost(s): Ghost<Seq<u8>>,
    Ghost(w): Ghost<Seq<u8>>,
)
    requires
        w.len() <= at,
        at + 2 <= s.len(),
        old(buf)@ == splice(s, at - w.len(), w),
    ensures
        final(buf)@ == splice(s, at - w.len(), w + be_bytes(n as nat, 2)),
{
    proof {
        lemma_be_bytes_len(n as nat, 2);
        lemma_splice_append(s, at - w.len(), w, be_bytes(n as nat, 2));
    }
    put_u16(buf, at, n);
}

/// Writes a 32-bit number behind `w`, which was written over a part of `s`.
pub(crate) fn append_u32(
    buf: &mut [u8],
    at: usize,
    n: u32,
    Ghost(s): Ghost<Seq<u8>>,
    Ghost(w): Ghost<Seq<u8>>,
)
    requires
        w.len() <= at,
        at + 4 <= s.len(),
        old(buf)@ == splice(s, at - w.len(), w),
    ensures
        final(buf)@ == splice(s, at - w.len(), w + be_bytes(n as nat, 4)),
{
    proof {
        lemma_be_bytes_len(n as nat, 4);
        lemma_splice_append(s, at - w.len(), w, be_bytes(n as nat, 4));
    }
    put_u32(buf, at, n);
}

/// Writes some bytes behind `w`, which was written over a part of `s`.
pub(crate) fn append_bytes(
    buf: &mut [u8],
    at: usize,
    b: &[u8],
    Ghost(s): Ghost<Seq<u8>>,
    Ghost(w): Ghost<Seq<u8>>,
)
    requires
        w.len() <= at,
        at + b@.len() <= s.len(),
        old(buf)@ == splice(s, at - w.len(), w),
    ensures
        final(buf)@ == splice(s, at - w.len(), w + b@),
{
    proof {
        lemma_splice_append(s, at - w.len(), w, b@);
    }
    put_bytes(buf, at, b);
}

/// Writes `n` zeros behind `w`, which was written over a part of `s`.
pub(crate) fn append_zeros(
    buf: &mut [u8],
    at: usize,
    n: usize,
    Ghost(s): Ghost<Seq<u8>>,
    Ghost(w): Ghost<Seq<u8>>,
)
    requires
        w.len() <= at,
        at + n <= s.len(),
        old(buf)@ == splice(s, at - w.len(), w),
    ensures
        final(buf)@ == splice(s, at - w.len(), w + zeros(n as nat)),
{
    proof {
        lemma_splice_append(s, at - w.len(), w, zeros(n as nat));
    }
    put_zeros(buf, at, n);
}

/// A number that ends in `k` zero digits is written with those zeros.
pub proof fn lemma_bytes_of_multiple(v: nat, n: nat, k: nat)
    ensures
        be_bytes(v * pow256(k), n + k) == be_bytes(v, n) + zeros(k),
    decreases k,
{
    if k == 0 {
        assert(v * pow256(0) == v) by (nonlinear_arith)
            requires
                pow256(0) == 1,
        ;
        assert(be_bytes(v, n) + zeros(0) =~= be_bytes(v, n));
    } else {
        let m = (k - 1) as nat;
        let rest = v * pow256(m);
        assert(v * pow256(k) == rest * 256) by (nonlinear_arith)
            requires
                rest == v * pow256(m),
                pow256(k) == pow256(m) * 256,
        ;
        lemma_bytes_of_multiple(v, n, m);
        assert((rest * 256) / 256 == rest);
        assert((rest * 256) % 256 == 0);
        assert(be_bytes(rest * 256, n + k) == be_bytes(rest, n + m).push(0u8));
        assert((be_bytes(v, n) + zeros(m)).push(0u8) =~= be_bytes(v, n) + zeros(k));
    }
}

} // verus!
