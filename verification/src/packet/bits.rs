//! Bit-stuffed reading and writing of packet headers (T.800 §B.10.1).
//!
//! Bits are packed most significant first. The byte after `0xFF` carries seven of
//! them: its top bit is a stuffed zero. [`payload`] gives the bits that a run of
//! bytes carries; a [`PacketBitReader`] is the part of them that is still to be
//! read, a [`PacketBitWriter`] the part that has been written.
use vstd::arithmetic::power2::{
    lemma2_to64, lemma_pow2_adds, lemma_pow2_pos, lemma_pow2_unfold, pow2,
};
use vstd::prelude::*;

use crate::Error;

verus! {

/// The low `n` bits of `v`, most significant first.
pub open spec fn bits_of(v: nat, n: nat) -> Seq<bool> {
    Seq::new(n, |i: int| v / pow2((n - 1 - i) as nat) % 2 == 1)
}

/// The number that `bits` spells, most significant first.
pub open spec fn bits_value(bits: Seq<bool>) -> nat
    decreases bits.len(),
{
    if bits.len() == 0 {
        0
    } else {
        2 * bits_value(bits.drop_last()) + if bits.last() {
            1nat
        } else {
            0
        }
    }
}

/// `n` zero bits.
pub open spec fn zero_bits(n: nat) -> Seq<bool> {
    Seq::new(n, |i: int| false)
}

/// How many bits byte `i` carries.
pub open spec fn byte_width(bytes: Seq<u8>, i: int) -> nat {
    if 1 <= i <= bytes.len() && bytes[i - 1] == 0xFF {
        7
    } else {
        8
    }
}

/// How many bits the first `n` bytes carry.
pub open spec fn payload_len(bytes: Seq<u8>, n: nat) -> nat
    decreases n,
{
    if n == 0 {
        0
    } else {
        payload_len(bytes, (n - 1) as nat) + byte_width(bytes, n - 1)
    }
}

/// The bits that `bytes` carries.
pub open spec fn payload(bytes: Seq<u8>) -> Seq<bool>
    decreases bytes.len(),
{
    if bytes.len() == 0 {
        Seq::empty()
    } else {
        payload(bytes.drop_last()) + bits_of(
            bytes.last() as nat,
            byte_width(bytes, bytes.len() - 1),
        )
    }
}

/// How many bytes, the first `i` of them aside, it takes to carry `k` bits more.
pub open spec fn bytes_spanned(bytes: Seq<u8>, i: nat, k: int) -> nat
    decreases k + 8,
{
    if k <= 0 {
        i
    } else {
        bytes_spanned(bytes, i + 1, k - byte_width(bytes, i as int))
    }
}

/// How many bytes it takes to carry the first `k` bits.
pub open spec fn bytes_used(bytes: Seq<u8>, k: nat) -> nat {
    bytes_spanned(bytes, 0, k as int)
}

/// How many bytes a header of `k` bits takes. A header does not end on `0xFF`: the
/// byte with the stuffed zero bit belongs to it.
pub open spec fn header_bytes(bytes: Seq<u8>, k: nat) -> nat {
    let n = bytes_used(bytes, k);
    if 0 < n < bytes.len() && bytes[n - 1] == 0xFF && bytes[n as int] < 0x80 {
        n + 1
    } else {
        n
    }
}

/// After every `0xFF` the top bit is clear.
pub open spec fn stuffed(bytes: Seq<u8>) -> bool {
    forall|i: int, j: int|
        #![trigger bytes[i], bytes[j]]
        0 <= i && j == i + 1 && j < bytes.len() && bytes[i] == 0xFF ==> bytes[j] < 0x80
}

/// `bytes` is how `bits` are written down: stuffed, padded with zero bits to a whole
/// number of bytes, no longer than it takes, and not ending on `0xFF`.
pub open spec fn packs(bits: Seq<bool>, bytes: Seq<u8>) -> bool {
    &&& stuffed(bytes)
    &&& bits.len() <= payload(bytes).len()
    &&& payload(bytes) == bits + zero_bits((payload(bytes).len() - bits.len()) as nat)
    &&& bytes.len() > 0 ==> bytes.last() != 0xFF
    &&& bytes.len() == bytes_used(bytes, bits.len()) || {
        &&& bytes.len() == bytes_used(bytes, bits.len()) + 1
        &&& bytes.len() >= 2
        &&& bytes[bytes.len() - 2] == 0xFF
    }
}

/// One more low bit.
pub proof fn lemma_bits_of_push(v: nat, n: nat, b: nat)
    requires
        b < 2,
    ensures
        bits_of(2 * v + b, n + 1) == bits_of(v, n).push(b == 1),
{
    let w = 2 * v + b;
    let long = bits_of(w, n + 1);
    assert forall|i: int| 0 <= i < n + 1 implies #[trigger] long[i] == bits_of(v, n).push(
        b == 1,
    )[i] by {
        if i == n {
            lemma2_to64();
            assert(w / 1 == w);
        } else {
            let k = (n - 1 - i) as nat;
            lemma_pow2_unfold(k + 1);
            lemma_pow2_pos(k);
            vstd::arithmetic::div_mod::lemma_div_denominator(w as int, 2, pow2(k) as int);
            assert(w / 2 == v);
        }
    }
    assert(long =~= bits_of(v, n).push(b == 1));
}

/// Zeros below.
pub proof fn lemma_bits_of_shift(v: nat, n: nat, p: nat)
    ensures
        bits_of(v * pow2(p), n + p) == bits_of(v, n) + zero_bits(p),
    decreases p,
{
    lemma2_to64();
    if p == 0 {
        assert(v * pow2(0) == v);
        assert(bits_of(v, n) + zero_bits(0) =~= bits_of(v, n));
    } else {
        let q = (p - 1) as nat;
        lemma_pow2_unfold(p);
        assert(v * pow2(p) == 2 * (v * pow2(q)) + 0) by (nonlinear_arith)
            requires
                pow2(p) == 2 * pow2(q),
        ;
        lemma_bits_of_shift(v, n, q);
        lemma_bits_of_push(v * pow2(q), n + q, 0);
        assert((bits_of(v, n) + zero_bits(q)).push(false) =~= bits_of(v, n) + zero_bits(p));
    }
}

/// A number below `2^n` is the value of its `n` bits.
pub proof fn lemma_bits_value_of(v: nat, n: nat)
    requires
        v < pow2(n),
    ensures
        bits_value(bits_of(v, n)) == v,
    decreases n,
{
    lemma2_to64();
    if n > 0 {
        let m = (n - 1) as nat;
        lemma_pow2_unfold(n);
        lemma_bits_of_push(v / 2, m, v % 2);
        let s = bits_of(v / 2, m);
        lemma_bits_value_of(v / 2, m);
        assert(s.push(v % 2 == 1).drop_last() =~= s);
    }
}

/// `n` bits spell a number below `2^n`.
pub proof fn lemma_bits_value_bound(bits: Seq<bool>)
    ensures
        bits_value(bits) < pow2(bits.len()),
    decreases bits.len(),
{
    lemma2_to64();
    if bits.len() > 0 {
        lemma_bits_value_bound(bits.drop_last());
        lemma_pow2_unfold(bits.len());
    }
}

/// The first bytes carry the first bits.
pub proof fn lemma_payload_take(bytes: Seq<u8>, n: nat)
    requires
        n <= bytes.len(),
    ensures
        payload(bytes).len() == payload_len(bytes, bytes.len()),
        payload_len(bytes, n) <= payload_len(bytes, bytes.len()),
        payload(bytes).take(payload_len(bytes, n) as int) == payload(bytes.take(n as int)),
        payload(bytes.take(n as int)).len() == payload_len(bytes, n),
    decreases bytes.len(),
{
    if bytes.len() == 0 {
        assert(bytes.take(0) =~= bytes);
        assert(payload(bytes).take(0) =~= payload(bytes));
    } else {
        let front = bytes.drop_last();
        let m = front.len();
        lemma_payload_len_same(bytes, front, m);
        lemma_payload_take(front, m);
        if n == bytes.len() {
            assert(bytes.take(n as int) =~= bytes);
            assert(payload(bytes).take(payload(bytes).len() as int) =~= payload(bytes));
        } else {
            lemma_payload_take(front, n);
            lemma_payload_len_same(bytes, front, n);
            assert(front.take(n as int) =~= bytes.take(n as int));
            let k = payload_len(bytes, n) as int;
            assert(payload(bytes).take(k) =~= payload(front).take(k));
        }
    }
}

/// How many bits are carried depends on the bytes before the last only.
pub proof fn lemma_payload_len_same(x: Seq<u8>, y: Seq<u8>, n: nat)
    requires
        n <= x.len() + 1,
        n <= y.len() + 1,
        forall|i: int| 0 <= i < n - 1 ==> x[i] == y[i],
    ensures
        payload_len(x, n) == payload_len(y, n),
    decreases n,
{
    if n > 0 {
        lemma_payload_len_same(x, y, (n - 1) as nat);
    }
}

/// More bytes carry more bits.
pub proof fn lemma_payload_len_monotone(bytes: Seq<u8>, m: nat, n: nat)
    requires
        m <= n,
    ensures
        payload_len(bytes, m) + 7 * (n - m) <= payload_len(bytes, n),
    decreases n - m,
{
    if m < n {
        lemma_payload_len_monotone(bytes, m, (n - 1) as nat);
    }
}

/// Bit `j` (counted from the lowest) of byte `n - 1`.
pub proof fn lemma_payload_bit(bytes: Seq<u8>, n: nat, j: nat)
    requires
        1 <= n <= bytes.len(),
        j < byte_width(bytes, n - 1),
    ensures
        payload_len(bytes, n) - 1 - j >= 0,
        payload_len(bytes, n) - 1 - j < payload(bytes).len(),
        payload(bytes)[payload_len(bytes, n) - 1 - j] == (bytes[n - 1] as nat / pow2(j) % 2 == 1),
{
    let head = bytes.take(n as int);
    lemma_payload_take(bytes, n);
    let k = payload_len(bytes, n) as int;
    let i = k - 1 - j;
    assert(payload(bytes).take(k)[i] == payload(bytes)[i]);
    let w = byte_width(head, n - 1);
    assert(w == byte_width(bytes, n - 1));
    let last = bits_of(head.last() as nat, w);
    assert(payload(head) == payload(head.drop_last()) + last);
    assert(payload(head)[i] == last[w - 1 - j]);
}

/// The byte in which bit `k` ends.
pub proof fn lemma_bytes_spanned(bytes: Seq<u8>, i: nat, n: nat, k: nat)
    requires
        i <= n,
        k <= payload_len(bytes, n),
        n > 0 ==> payload_len(bytes, (n - 1) as nat) < k,
    ensures
        bytes_spanned(bytes, i, k - payload_len(bytes, i)) == n,
    decreases n - i,
{
    if i < n {
        lemma_payload_len_monotone(bytes, i, (n - 1) as nat);
        lemma_bytes_spanned(bytes, i + 1, n, k);
    }
}

/// Bytes that follow do not change how a header is measured.
pub proof fn lemma_bytes_used_prefix(bytes: Seq<u8>, tail: Seq<u8>, i: nat, k: int)
    requires
        i <= bytes.len(),
        k <= payload_len(bytes, bytes.len()) - payload_len(bytes, i),
    ensures
        bytes_spanned(bytes + tail, i, k) == bytes_spanned(bytes, i, k),
        bytes_spanned(bytes, i, k) <= bytes.len(),
    decreases k + 8,
{
    if k > 0 {
        if i < bytes.len() {
            assert(byte_width(bytes + tail, i as int) == byte_width(bytes, i as int));
            lemma_bytes_used_prefix(bytes, tail, i + 1, k - byte_width(bytes, i as int));
        }
    }
}

/// Reads bits, most significant first, out of stuffed bytes.
#[derive(Debug)]
pub struct PacketBitReader<'a> {
    bytes: &'a [u8],
    next_byte: usize,
    bits_left: u8,
}

impl<'a> View for PacketBitReader<'a> {
    type V = Seq<bool>;

    /// The bits that are still to be read.
    closed spec fn view(&self) -> Seq<bool> {
        payload(self.bytes@).skip(
            payload_len(self.bytes@, self.next_byte as nat) - self.bits_left,
        )
    }
}

impl<'a> PacketBitReader<'a> {
    /// The bytes that are read.
    pub closed spec fn bytes(&self) -> Seq<u8> {
        self.bytes@
    }

    /// How many bits have been read or skipped.
    pub open spec fn delivered(&self) -> nat {
        (payload(self.bytes()).len() - self@.len()) as nat
    }

    /// The reader is inside its bytes.
    pub closed spec fn wf(&self) -> bool {
        &&& self.next_byte <= self.bytes@.len()
        &&& self.next_byte == 0 ==> self.bits_left == 0
        &&& self.next_byte > 0 ==> self.bits_left < byte_width(self.bytes@, self.next_byte - 1)
    }

    /// A reader at the start of `bytes`.
    pub fn new(bytes: &'a [u8]) -> (r: Self)
        ensures
            r.wf(),
            r.bytes() == bytes@,
            r@ == payload(bytes@),
    {
        let r = PacketBitReader { bytes, next_byte: 0, bits_left: 0 };
        assert(r@ =~= payload(bytes@));
        r
    }

    /// What the position means for the bits that have been delivered.
    proof fn lemma_position(&self)
        requires
            self.wf(),
        ensures
            self.delivered() == payload_len(self.bytes@, self.next_byte as nat) - self.bits_left,
            self@.len() + self.delivered() == payload(self.bytes@).len(),
            payload(self.bytes@).len() == payload_len(self.bytes@, self.bytes@.len()),
            self.next_byte > 0 ==> payload_len(self.bytes@, (self.next_byte - 1) as nat)
                < self.delivered(),
    {
        lemma_payload_take(self.bytes@, self.next_byte as nat);
    }

    /// How many bytes have been read to their end.
    pub fn bytes_consumed(&self) -> (n: usize)
        requires
            self.wf(),
        ensures
            n <= self.bytes().len(),
            payload_len(self.bytes(), n as nat) <= self.delivered(),
            n < self.bytes().len() ==> self.delivered() < payload_len(self.bytes(), n as nat + 1),
    {
        proof {
            self.lemma_position();
        }
        if self.bits_left == 0 {
            self.next_byte
        } else {
            self.next_byte - 1
        }
    }

    /// The next bit; [`Error::UnexpectedEof`] when there is none.
    pub fn read_bit(&mut self) -> (r: Result<u8, Error>)
        requires
            old(self).wf(),
        ensures
            final(self).wf(),
            final(self).bytes() == old(self).bytes(),
            match r {
                Ok(b) => {
                    &&& old(self)@.len() > 0
                    &&& b == if old(self)@[0] { 1u8 } else { 0 }
                    &&& final(self)@ == old(self)@.skip(1)
                },
                Err(e) => {
                    &&& e == Error::UnexpectedEof
                    &&& old(self)@.len() == 0
                    &&& final(self)@ == old(self)@
                },
            },
    {
        proof {
            self.lemma_position();
        }
        if self.bits_left == 0 {
            if self.next_byte >= self.bytes.len() {
                return Err(Error::UnexpectedEof);
            }
            let after_ff: bool = self.next_byte > 0 && self.bytes[self.next_byte - 1] == 0xFF;
            self.next_byte = self.next_byte + 1;
            self.bits_left = if after_ff { 7 } else { 8 };
        }
        proof {
            lemma_payload_take(self.bytes@, self.next_byte as nat);
            lemma_payload_bit(self.bytes@, self.next_byte as nat, (self.bits_left - 1) as nat);
        }
        self.bits_left = self.bits_left - 1;
        let b: u8 = self.bytes[self.next_byte - 1];
        proof {
            vstd::bits::lemma_u8_shr_is_div(b, self.bits_left);
        }
        let bit: u8 = (b >> self.bits_left) % 2;
        assert(self@ =~= old(self)@.skip(1));
        Ok(bit)
    }

    /// The next `n` bits as a number, the first bit being the most significant.
    ///
    /// No bits give 0. More than 32 give [`Error::InvalidPacketHeader`] and leave the
    /// reader alone. When there are fewer than `n`, they are used up and the result
    /// is [`Error::UnexpectedEof`].
    pub fn read_bits(&mut self, n: u8) -> (r: Result<u32, Error>)
        requires
            old(self).wf(),
        ensures
            final(self).wf(),
            final(self).bytes() == old(self).bytes(),
            (r, final(self)@) == parse_bits(old(self)@, n as nat),
    {
        if n == 0 {
            assert(self@ =~= old(self)@.skip(0));
            return Ok(0);
        }
        if n > 32 {
            return Err(Error::InvalidPacketHeader);
        }
        let mut v: u32 = 0;
        let ghost start = self@;
        proof {
            lemma2_to64();
            assert(start.skip(0) =~= start);
        }
        for i in 0..n
            invariant
                self.wf(),
                self.bytes() == old(self).bytes(),
                start == old(self)@,
                1 <= n <= 32,
                i <= start.len(),
                self@ == start.skip(i as int),
                v == bits_value(start.take(i as int)),
                v < pow2(i as nat),
        {
            proof {
                lemma_pow2_unfold(i as nat + 1);
                lemma2_to64();
                vstd::arithmetic::power2::lemma_pow2_strictly_increases(i as nat, 32);
                lemma_bits_value_bound(start.take(i as int));
            }
            match self.read_bit() {
                Ok(bit) => {
                    proof {
                        assert(start.take(i + 1).drop_last() =~= start.take(i as int));
                        assert(start.skip(i as int).skip(1) =~= start.skip(i + 1));
                        lemma_double_bound(v as nat, i as nat);
                    }
                    v = v * 2 + bit as u32;
                },
                Err(e) => {
                    assert(self@ =~= Seq::empty());
                    return Err(e);
                },
            }
        }
        Ok(v)
    }

    /// Skips the rest of the byte that is being read.
    pub fn align_to_byte(&mut self)
        requires
            old(self).wf(),
        ensures
            final(self).wf(),
            final(self).bytes() == old(self).bytes(),
            final(self)@ == payload(old(self).bytes()).skip(
                payload_len(
                    old(self).bytes(),
                    bytes_used(old(self).bytes(), old(self).delivered()),
                ) as int,
            ),
    {
        proof {
            self.lemma_position();
            lemma_bytes_spanned(self.bytes@, 0, self.next_byte as nat, self.delivered());
        }
        self.bits_left = 0;
    }

    /// How many bytes the header takes that ends with the bit read last.
    pub fn header_len(&self) -> (n: usize)
        requires
            self.wf(),
        ensures
            n == header_bytes(self.bytes(), self.delivered()),
            n <= self.bytes().len(),
    {
        proof {
            self.lemma_position();
            lemma_bytes_spanned(self.bytes@, 0, self.next_byte as nat, self.delivered());
        }
        let n: usize = self.next_byte;
        if 0 < n && n < self.bytes.len() && self.bytes[n - 1] == 0xFF && self.bytes[n] < 0x80 {
            n + 1
        } else {
            n
        }
    }
}

/// `2v + 1` stays below the next power of two.
proof fn lemma_double_bound(v: nat, i: nat)
    requires
        v < pow2(i),
        i < 32,
    ensures
        2 * v + 1 < pow2(i + 1),
        pow2(i + 1) <= 0x1_0000_0000,
{
    lemma_pow2_unfold(i + 1);
    lemma2_to64();
    if i + 1 < 32 {
        vstd::arithmetic::power2::lemma_pow2_strictly_increases(i + 1, 32);
    }
}

/// What reading `n` bits gives, and the bits that are left.
pub open spec fn parse_bits(bits: Seq<bool>, n: nat) -> (Result<u32, Error>, Seq<bool>) {
    if n > 32 {
        (Err(Error::InvalidPacketHeader), bits)
    } else if bits.len() < n {
        (Err(Error::UnexpectedEof), Seq::empty())
    } else {
        (Ok(bits_value(bits.take(n as int)) as u32), bits.skip(n as int))
    }
}

/// Writes bits, most significant first, into stuffed bytes.
#[derive(Debug, Clone)]
pub struct PacketBitWriter {
    out: Vec<u8>,
    cur: u8,
    bits_used: u8,
}

/// Whether the byte after `bytes` starts with a stuffed zero.
spec fn ends_ff(bytes: Seq<u8>) -> bool {
    bytes.len() > 0 && bytes.last() == 0xFF
}

impl View for PacketBitWriter {
    type V = Seq<bool>;

    /// The bits that have been written.
    closed spec fn view(&self) -> Seq<bool> {
        payload(self.out@) + bits_of(self.cur as nat, self.pending())
    }
}

impl Default for PacketBitWriter {
    fn default() -> (w: Self)
        ensures
            w.wf(),
            w@ == Seq::<bool>::empty(),
    {
        Self::new()
    }
}

impl PacketBitWriter {
    /// How many bits are in the byte that is not complete yet.
    closed spec fn pending(&self) -> nat {
        if self.bits_used > 0 && ends_ff(self.out@) {
            (self.bits_used - 1) as nat
        } else {
            self.bits_used as nat
        }
    }

    /// The bytes are stuffed and the last one is begun as it must be.
    pub closed spec fn wf(&self) -> bool {
        &&& self.bits_used < 8
        &&& self.bits_used == 1 ==> !ends_ff(self.out@)
        &&& self.cur < pow2(self.pending())
        &&& stuffed(self.out@)
    }

    /// A writer that has written nothing.
    pub fn new() -> (w: Self)
        ensures
            w.wf(),
            w@ == Seq::<bool>::empty(),
    {
        let w = PacketBitWriter { out: Vec::new(), cur: 0, bits_used: 0 };
        proof {
            lemma2_to64();
            assert(w@ =~= Seq::<bool>::empty());
        }
        w
    }

    /// Writes the lowest bit of `bit`.
    pub fn write_bit(&mut self, bit: u8)
        requires
            old(self).wf(),
        ensures
            final(self).wf(),
            final(self)@ == old(self)@.push(bit % 2 == 1),
    {
        let ghost before = payload(self.out@);
        let n: usize = self.out.len();
        let after_ff: bool = n > 0 && self.out[n - 1] == 0xFF;
        if self.bits_used == 0 && after_ff {
            self.bits_used = 1;
            self.cur = 0;
            proof {
                lemma2_to64();
            }
        }
        let ghost w = (if after_ff { self.bits_used - 1 } else { self.bits_used as int }) as nat;
        proof {
            lemma2_to64();
            lemma_bits_of_push(self.cur as nat, w, (bit % 2) as nat);
            lemma_pow2_unfold(w + 1);
            lemma_small_pow2(w);
            assert(bits_of(0, 0) =~= Seq::<bool>::empty());
            assert(old(self)@ == before + bits_of(self.cur as nat, w));
        }
        self.cur = self.cur * 2 + bit % 2;
        self.bits_used = self.bits_used + 1;
        assert(before + bits_of(self.cur as nat, w + 1) =~= old(self)@.push(bit % 2 == 1));
        if self.bits_used == 8 {
            let ghost out = self.out@;
            self.out.push(self.cur);
            proof {
                assert(self.out@.drop_last() =~= out);
                assert(payload(self.out@) == before + bits_of(self.cur as nat, w + 1));
                assert(stuffed(self.out@)) by {
                    assert forall|i: int, j: int|
                        #![trigger self.out@[i], self.out@[j]]
                        0 <= i && j == i + 1 && j < self.out@.len() && self.out@[i]
                            == 0xFF implies self.out@[j] < 0x80 by {
                        if j < out.len() {
                            assert(out[i] == 0xFF && out[j] == self.out@[j]);
                        }
                    }
                }
            }
            self.cur = 0;
            self.bits_used = 0;
            assert(payload(self.out@) + bits_of(0, 0) =~= payload(self.out@));
        }
    }

    /// Writes the low `n` bits of `v`, most significant first.
    pub fn write_bits(&mut self, v: u32, n: u8)
        requires
            old(self).wf(),
            n <= 32,
        ensures
            final(self).wf(),
            final(self)@ == old(self)@ + bits_of(v as nat, n as nat),
    {
        let mut left: u8 = n;
        let ghost all = bits_of(v as nat, n as nat);
        assert(old(self)@ + all.take(0) =~= old(self)@);
        while left > 0
            invariant
                self.wf(),
                left <= n <= 32,
                all == bits_of(v as nat, n as nat),
                self@ == old(self)@ + all.take(n - left),
            decreases left,
        {
            proof {
                vstd::bits::lemma_u32_shr_is_div(v, (left - 1) as u32);
                assert(old(self)@ + all.take(n - left + 1) =~= (old(self)@ + all.take(
                    n - left,
                )).push(all[n - left]));
            }
            left = left - 1;
            let bit: u8 = ((v >> (left as u32)) % 2) as u8;
            self.write_bit(bit);
        }
        assert(all.take(n as int) =~= all);
    }

    /// The bytes, padded with zero bits. They do not end on `0xFF`: where the bits
    /// do, a byte with the stuffed zero follows.
    pub fn finish(self) -> (bytes: Vec<u8>)
        requires
            self.wf(),
        ensures
            packs(self@, bytes@),
    {
        let mut bytes: Vec<u8> = self.out;
        let used: u8 = self.bits_used;
        let n: usize = bytes.len();
        if used > 0 {
            let ghost w = self.pending();
            let ghost p = (8 - used) as nat;
            proof {
                lemma_shift_fits(self.cur as nat, w, p);
                vstd::bits::lemma_u8_shl_is_mul(self.cur, p as u8);
                lemma_packs_partial(bytes@, self.cur as nat, w, p, self.cur << (8 - used));
            }
            bytes.push(self.cur << (8 - used));
        } else {
            proof {
                lemma_packs_whole(bytes@);
                assert(self@ =~= payload(bytes@));
            }
            if n > 0 && bytes[n - 1] == 0xFF {
                bytes.push(0);
            }
        }
        bytes
    }
}

/// A byte below `0x80` may follow anything.
proof fn lemma_stuffed_push(bytes: Seq<u8>, b: u8)
    requires
        stuffed(bytes),
        ends_ff(bytes) ==> b < 0x80,
    ensures
        stuffed(bytes.push(b)),
{
    let all = bytes.push(b);
    assert forall|i: int, j: int|
        #![trigger all[i], all[j]]
        0 <= i && j == i + 1 && j < all.len() && all[i] == 0xFF implies all[j] < 0x80 by {
        if j < bytes.len() {
            assert(bytes[i] == 0xFF && bytes[j] == all[j]);
        }
    }
}

/// Padding a byte that is begun.
proof fn lemma_packs_partial(out: Seq<u8>, cur: nat, w: nat, p: nat, last: u8)
    requires
        stuffed(out),
        cur < pow2(w),
        1 <= w,
        1 <= p,
        w + p == byte_width(out, out.len() as int),
        last == cur * pow2(p),
    ensures
        packs(payload(out) + bits_of(cur, w), out.push(last)),
{
    let bytes = out.push(last);
    let bits = payload(out) + bits_of(cur, w);
    assert(bytes.drop_last() =~= out);
    lemma_bits_of_shift(cur, w, p);
    assert(payload(bytes) =~= bits + zero_bits(p));
    lemma_payload_len_same(bytes, out, out.len());
    lemma_payload_take(bytes, bytes.len());
    lemma_payload_take(out, out.len());
    lemma_bytes_spanned(bytes, 0, bytes.len(), bits.len());
    lemma_even(cur, p);
    lemma_shift_fits(cur, w, p);
    lemma_stuffed_push(out, last);
}

/// Bits that fill their last byte.
proof fn lemma_packs_whole(out: Seq<u8>)
    requires
        stuffed(out),
    ensures
        !ends_ff(out) ==> packs(payload(out), out),
        ends_ff(out) ==> packs(payload(out), out.push(0)),
{
    let bits = payload(out);
    let k = bits.len();
    lemma_payload_take(out, out.len());
    if out.len() > 0 {
        lemma_payload_len_monotone(out, (out.len() - 1) as nat, out.len());
    }
    lemma_bytes_spanned(out, 0, out.len(), k);
    assert(bits + zero_bits(0) =~= bits);
    if ends_ff(out) {
        let bytes = out.push(0);
        assert(bytes.drop_last() =~= out);
        lemma_bits_of_shift(0, 0, 7);
        assert(0 * pow2(7) == 0);
        assert(bits_of(0, 0) + zero_bits(7) =~= zero_bits(7));
        assert(payload(bytes) =~= bits + zero_bits(7));
        lemma_bytes_used_prefix(out, seq![0u8], 0, k as int);
        assert(bytes =~= out + seq![0u8]);
        lemma_stuffed_push(out, 0);
    }
}

/// Powers of two up to a byte.
proof fn lemma_small_pow2(w: nat)
    requires
        w <= 7,
    ensures
        1 <= pow2(w) <= 0x80,
{
    lemma2_to64();
    lemma_pow2_pos(w);
    if w < 7 {
        vstd::arithmetic::power2::lemma_pow2_strictly_increases(w, 7);
    }
}

/// `w` bits moved up by `p` places stay within a byte.
proof fn lemma_shift_fits(v: nat, w: nat, p: nat)
    requires
        v < pow2(w),
        w + p <= 8,
    ensures
        v * pow2(p) < pow2(w + p),
        v * pow2(p) <= 0xFF,
        w + p <= 7 ==> v * pow2(p) < 0x80,
{
    lemma_pow2_adds(w, p);
    lemma_pow2_pos(p);
    lemma2_to64();
    assert(v * pow2(p) < pow2(w) * pow2(p)) by (nonlinear_arith)
        requires
            v < pow2(w),
            pow2(p) > 0,
    ;
    if w + p < 8 {
        lemma_small_pow2(w + p);
    }
}

/// A number moved up is even.
proof fn lemma_even(v: nat, p: nat)
    requires
        p > 0,
    ensures
        v * pow2(p) != 0xFF,
{
    lemma_pow2_unfold(p);
    let q = pow2((p - 1) as nat);
    assert(v * pow2(p) == 2 * (v * q)) by (nonlinear_arith)
        requires
            pow2(p) == 2 * q,
    ;
}

/// What is written is what is read: the bits of a header come back out of its bytes,
/// whatever follows them, and the header takes exactly its own bytes.
pub proof fn law_bits_round_trip(bits: Seq<bool>, bytes: Seq<u8>, tail: Seq<u8>)
    requires
        packs(bits, bytes),
    ensures
        bits.len() <= payload(bytes + tail).len(),
        payload(bytes + tail).take(bits.len() as int) == bits,
        bits.len() > 0 ==> header_bytes(bytes + tail, bits.len()) == bytes.len(),
{
    let all = bytes + tail;
    lemma_payload_take(all, bytes.len());
    assert(all.take(bytes.len() as int) =~= bytes);
    lemma_payload_take(bytes, bytes.len());
    let k = bits.len() as int;
    assert(payload(all).take(k) =~= payload(all).take(payload(bytes).len() as int).take(k));
    assert(payload(bytes).take(k) =~= bits);
    lemma_bytes_used_prefix(bytes, tail, 0, k);
    let n = bytes_used(bytes, bits.len());
    if bits.len() > 0 {
        assert(n > 0) by {
            lemma_bytes_used_positive(bytes, k);
        }
        if bytes.len() == n {
            assert(all[n - 1] == bytes.last());
        } else {
            assert(all[n - 1] == 0xFF && all[n as int] == bytes[n as int]);
            assert(bytes[n - 1] == 0xFF);
        }
    }
}

/// Some bits take some bytes.
proof fn lemma_bytes_used_positive(bytes: Seq<u8>, k: int)
    requires
        k > 0,
    ensures
        bytes_spanned(bytes, 0, k) > 0,
{
    lemma_bytes_spanned_grows(bytes, 1, k - byte_width(bytes, 0));
}

/// Counting on never goes back.
pub proof fn lemma_bytes_spanned_grows(bytes: Seq<u8>, i: nat, k: int)
    ensures
        bytes_spanned(bytes, i, k) >= i,
    decreases k + 8,
{
    if k > 0 {
        lemma_bytes_spanned_grows(bytes, i + 1, k - byte_width(bytes, i as int));
    }
}

} // verus!
