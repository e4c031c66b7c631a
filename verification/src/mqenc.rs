//! The MQ arithmetic encoder (T.800 Annex C, §C.2).
//!
//! Each call of [`MqEncoder::encode`] narrows the interval by one decision;
//! [`MqEncoder::flush`] ends the segment and hands back its bytes. The registers
//! are modelled by [`EncoderState`]. That the decoder of [`crate::mq`] reads back
//! what was encoded is proved in [`crate::mq_round_trip`].
use vstd::arithmetic::power2::{
    lemma2_to64, lemma_pow2_pos, lemma_pow2_strictly_increases, lemma_pow2_unfold, pow2,
};
use vstd::prelude::*;

use crate::mq::{lemma_qe_row, qe_entry, ContextState, MqContext};

verus! {

/// The encoder's registers and the bytes that it has completed.
///
/// `c` is the base of the current interval and `a` its size. Bit `27 - ct` of `c`
/// has the weight of the lowest bit of the last completed byte.
pub struct EncoderState {
    pub a: int,
    pub c: int,
    pub ct: int,
    pub out: Seq<u8>,
}

/// A byte after `0xFF` is at most `0x8F`, so that no marker occurs.
pub open spec fn no_marker(s: Seq<u8>) -> bool {
    forall|i: int, j: int|
        #![trigger s[i], s[j]]
        0 <= i && j == i + 1 && j < s.len() && s[i] == 0xFF ==> s[j] <= 0x8F
}

impl EncoderState {
    /// The last completed byte, 0 before the first.
    pub open spec fn last(self) -> int {
        if self.out.len() == 0 {
            0
        } else {
            self.out.last() as int
        }
    }

    /// The interval is not empty and never reaches so far past the last completed
    /// byte that a carry could spill over it, or lift a byte after `0xFF` above
    /// `0x8F`.
    pub open spec fn bounded(self) -> bool {
        let unit = pow2((27 - self.ct) as nat);
        &&& 0 < self.a
        &&& 0 <= self.c
        &&& 0 <= self.ct <= 12
        &&& no_marker(self.out)
        &&& self.out.len() == 0 ==> self.c + self.a <= unit
        &&& self.out.len() > 0 ==> self.ct <= 8 && 8 * (self.c + self.a) <= 9 * unit
        &&& self.out.len() >= 2 && self.out[self.out.len() - 2] == 0xFF ==> {
            self.last() * unit + self.c + self.a <= 0x90 * unit
        }
    }

    /// Completes a byte of eight bits.
    pub open spec fn put8(self) -> EncoderState {
        EncoderState {
            c: self.c % 0x8_0000,
            ct: 8,
            out: self.out.push((self.c / 0x8_0000 % 0x100) as u8),
            ..self
        }
    }

    /// Completes a byte of seven bits, the top bit of which is the carry so far.
    pub open spec fn put7(self) -> EncoderState {
        EncoderState {
            c: self.c % 0x10_0000,
            ct: 7,
            out: self.out.push((self.c / 0x10_0000 % 0x100) as u8),
            ..self
        }
    }

    /// BYTEOUT: completes one byte. After `0xFF` it has seven bits. Otherwise a
    /// pending carry is first added to the last byte.
    #[verifier::opaque]
    pub open spec fn byteout(self) -> EncoderState {
        if self.last() == 0xFF {
            self.put7()
        } else if self.c < 0x800_0000 {
            self.put8()
        } else {
            let carried = EncoderState {
                c: self.c % 0x800_0000,
                out: self.out.update(self.out.len() - 1, (self.last() + 1) as u8),
                ..self
            };
            if self.last() + 1 == 0xFF {
                carried.put7()
            } else {
                carried.put8()
            }
        }
    }

    /// One renormalisation shift, completing a byte when it is due.
    pub open spec fn shift(self) -> EncoderState {
        let s = EncoderState { c: self.c * 2, ct: self.ct - 1, ..self };
        EncoderState { a: self.a * 2, ..if s.ct == 0 { s.byteout() } else { s } }
    }

    /// RENORME: shifts, at least once, until the interval is at least `0x8000`.
    pub open spec fn renorm(self) -> EncoderState
        decreases 0x1_0000 - self.a,
    {
        if self.a <= 0 || self.a >= 0x8000 {
            self
        } else {
            self.shift().renorm()
        }
    }

    /// The lower part of the interval, of size `qe`.
    pub open spec fn lower(self, qe: int) -> EncoderState {
        EncoderState { a: qe, ..self }
    }

    /// The upper part of the interval, above its first `qe`.
    pub open spec fn upper(self, qe: int) -> EncoderState {
        EncoderState { a: self.a - qe, c: self.c + qe, ..self }
    }

    /// SETBITS: the base moved up, inside the interval, to end in ones.
    pub open spec fn setbits(self) -> EncoderState {
        let ones = self.c / 0x1_0000 * 0x1_0000 + 0xFFFF;
        EncoderState { c: if ones >= self.c + self.a { ones - 0x8000 } else { ones }, ..self }
    }

    /// Moves the rest of the current byte out.
    pub open spec fn drain(self) -> EncoderState {
        EncoderState { c: self.c * pow2(self.ct as nat), ct: 0, ..self }.byteout()
    }

    /// FLUSH: every byte of the segment. A final `0xFF` is left out.
    pub open spec fn flush(self) -> Seq<u8> {
        let full = self.setbits().drain().drain().out;
        if full.last() == 0xFF {
            full.drop_last()
        } else {
            full
        }
    }
}

/// INITENC: the registers of a fresh encoder.
pub open spec fn init_encoder() -> EncoderState {
    EncoderState { a: 0x8000, c: 0, ct: 12, out: Seq::empty() }
}

/// ENCODE: the registers and the context after the decision `d`.
///
/// The interval is split at `Qe`; the smaller part stands for the less probable
/// symbol.
pub open spec fn encode_symbol(s: EncoderState, cx: ContextState, d: bool) -> (
    EncoderState,
    ContextState,
) {
    let qe = cx.qe();
    let rest = s.a - qe;
    if d == cx.mps {
        if rest >= 0x8000 {
            (s.upper(qe), cx)
        } else if rest < qe {
            (s.lower(qe).renorm(), cx.after_mps())
        } else {
            (s.upper(qe).renorm(), cx.after_mps())
        }
    } else if rest < qe {
        (s.upper(qe).renorm(), cx.after_lps())
    } else {
        (s.lower(qe).renorm(), cx.after_lps())
    }
}

/// A shift keeps the bounds, and so does the byte that it may complete.
pub(crate) proof fn lemma_shift_bounded(s: EncoderState)
    requires
        s.bounded(),
        s.a < 0x8000,
        1 <= s.ct,
    ensures
        s.shift().bounded(),
        s.shift().ct >= 1,
        s.shift().a == 2 * s.a,
{
    let t = EncoderState { a: s.a * 2, c: s.c * 2, ct: s.ct - 1, ..s };
    lemma_scaled_bounded(s, 1);
    lemma_units();
    assert(t == (EncoderState { a: s.a * pow2(1), c: s.c * pow2(1), ct: s.ct - 1, ..s }));
    if t.ct == 0 {
        lemma_byteout_bounded(t);
        lemma_byteout_any_size(t, s.a);
    }
}

/// Completing a byte keeps the bounds, if the interval is below `0x1_0000`; it
/// never makes a marker.
pub(crate) proof fn lemma_byteout_bounded(s: EncoderState)
    requires
        s.bounded(),
        s.ct == 0,
    ensures
        s.a < 0x1_0000 ==> s.byteout().bounded(),
        no_marker(s.byteout().out),
        7 <= s.byteout().ct <= 8,
        s.byteout().a == s.a,
        s.byteout().out.len() == s.out.len() + 1,
{
    lemma_units();
    reveal(EncoderState::byteout);
    let t = s.byteout();
    let n = s.out.len();
    let carry = s.last() != 0xFF && s.c >= 0x800_0000;
    let c = if carry { s.c - 0x800_0000 } else { s.c };
    let seven = s.last() == 0xFF || (carry && s.last() + 1 == 0xFF);
    if carry {
        assert(n > 0);
        assert(n >= 2 && s.out[n - 2] == 0xFF ==> s.last() < 0x8F) by {
            let unit = pow2((27 - s.ct) as nat);
            assert(s.last() * unit == s.last() * 0x800_0000) by (nonlinear_arith)
                requires
                    unit == 0x800_0000,
            ;
        }
    }
    if seven {
        assert(0 <= c / 0x10_0000 <= 0x8F);
        assert(t.last() == c / 0x10_0000);
        assert(t.last() * 0x10_0000 + t.c == c);
        let unit = pow2((27 - t.ct) as nat);
        assert(t.last() * unit == t.last() * 0x10_0000) by (nonlinear_arith)
            requires
                unit == 0x10_0000,
        ;
    } else {
        assert(0 <= c / 0x8_0000 < 0x100);
        assert(t.last() == c / 0x8_0000);
    }
    assert forall|i: int, j: int|
        #![trigger t.out[i], t.out[j]]
        0 <= i && j == i + 1 && j < t.out.len() && t.out[i] == 0xFF implies t.out[j] <= 0x8F by {
        if j < n {
            assert(s.out[i] == 0xFF);
            assert(s.out[j] <= 0x8F);
        }
    }
}

/// The powers of two that the registers are laid out by.
pub(crate) proof fn lemma_units()
    ensures
        pow2(0) == 1,
        pow2(1) == 2,
        pow2(7) == 0x80,
        pow2(8) == 0x100,
        pow2(12) == 0x1000,
        pow2(15) == 0x8000,
        pow2(16) == 0x1_0000,
        pow2(19) == 0x8_0000,
        pow2(20) == 0x10_0000,
        pow2(27) == 0x800_0000,
{
    lemma2_to64();
}

/// Powers of two grow with the exponent.
pub(crate) proof fn lemma_pow2_monotone(i: nat, j: nat)
    requires
        i <= j,
    ensures
        0 < pow2(i) <= pow2(j),
{
    lemma_pow2_pos(i);
    if i < j {
        lemma_pow2_strictly_increases(i, j);
    }
}

/// The register never holds more than 28 bits.
pub(crate) proof fn lemma_bounded_small(s: EncoderState)
    requires
        s.bounded(),
    ensures
        s.c + s.a <= 0x900_0000,
{
    lemma_units();
    lemma_pow2_monotone((27 - s.ct) as nat, 27);
}

/// Moving both ends of the interval up by `k` bits, towards the next byte.
pub(crate) proof fn lemma_scaled_bounded(s: EncoderState, k: nat)
    requires
        s.bounded(),
        k <= s.ct,
    ensures
        (EncoderState { a: s.a * pow2(k), c: s.c * pow2(k), ct: s.ct - k, ..s }).bounded(),
    decreases k,
{
    lemma_units();
    if k > 0 {
        let t = EncoderState { a: s.a * 2, c: s.c * 2, ct: s.ct - 1, ..s };
        lemma_pow2_unfold((27 - t.ct) as nat);
        let u = pow2((27 - s.ct) as nat);
        let v = pow2((27 - t.ct) as nat);
        assert(s.last() * v == 2 * (s.last() * u)) by (nonlinear_arith)
            requires
                v == 2 * u,
        ;
        assert(t.bounded());
        lemma_scaled_bounded(t, (k - 1) as nat);
        lemma_pow2_unfold(k);
        assert(t.a * pow2((k - 1) as nat) == s.a * pow2(k)) by (nonlinear_arith)
            requires
                t.a == s.a * 2,
                pow2(k) == 2 * pow2((k - 1) as nat),
        ;
        assert(t.c * pow2((k - 1) as nat) == s.c * pow2(k)) by (nonlinear_arith)
            requires
                t.c == s.c * 2,
                pow2(k) == 2 * pow2((k - 1) as nat),
        ;
    } else {
        assert(s.a * pow2(0) == s.a && s.c * pow2(0) == s.c);
    }
}

/// A part of a bounded interval is bounded.
pub(crate) proof fn lemma_part_bounded(s: EncoderState, t: EncoderState)
    requires
        s.bounded(),
        t.out == s.out,
        t.ct == s.ct,
        s.c <= t.c,
        0 < t.a,
        t.c + t.a <= s.c + s.a,
    ensures
        t.bounded(),
{
}

/// SETBITS stays inside the interval and leaves at least fifteen ones at the end.
pub(crate) proof fn lemma_setbits(s: EncoderState)
    requires
        0 <= s.c,
        0x8000 <= s.a,
    ensures
        s.c <= s.setbits().c < s.c + s.a,
        s.setbits().c % 0x8000 == 0x7FFF,
{
}

/// The byte that is completed does not depend on the size of the interval.
pub(crate) proof fn lemma_byteout_any_size(s: EncoderState, a: int)
    ensures
        (EncoderState { a: a, ..s }).byteout() == (EncoderState { a: a, ..s.byteout() }),
{
    reveal(EncoderState::byteout);
}

/// Moving the rest of the current byte out keeps the bounds of a single point.
pub(crate) proof fn lemma_drain(s: EncoderState)
    requires
        (EncoderState { a: 1, ..s }).bounded(),
        1 <= s.ct,
    ensures
        0 <= s.c * pow2(s.ct as nat) <= 0x900_0000,
        (EncoderState { a: 1, c: s.c * pow2(s.ct as nat), ct: 0, ..s }).bounded(),
        (EncoderState { a: 1, ..s.drain() }).bounded(),
        (EncoderState { a: pow2(s.ct as nat) as int, ..s.drain() }).bounded(),
        7 <= s.drain().ct <= 8,
        s.drain().out.len() == s.out.len() + 1,
        no_marker(s.drain().out),
{
    let k = s.ct as nat;
    let point = EncoderState { a: 1, ..s };
    let wide = EncoderState { a: pow2(k) as int, c: s.c * pow2(k), ct: 0, ..s };
    lemma_scaled_bounded(point, k);
    assert(wide == (EncoderState { a: point.a * pow2(k), c: point.c * pow2(k), ct: point.ct - k, ..point }));
    lemma_bounded_small(wide);
    lemma_units();
    lemma_pow2_monotone(k, 12);
    lemma_byteout_bounded(wide);
    let out = wide.byteout();
    lemma_part_bounded(wide, EncoderState { a: 1, ..wide });
    lemma_part_bounded(out, EncoderState { a: 1, ..out });
    lemma_byteout_any_size(wide, s.a);
    assert(s.drain() == (EncoderState { a: s.a, ..out }));
}

/// The MQ arithmetic encoder.
#[derive(Debug, Clone)]
pub struct MqEncoder {
    a: u32,
    c: u64,
    ct: i32,
    out: Vec<u8>,
}

impl View for MqEncoder {
    type V = EncoderState;

    closed spec fn view(&self) -> EncoderState {
        EncoderState { a: self.a as int, c: self.c as int, ct: self.ct as int, out: self.out@ }
    }
}

impl Default for MqEncoder {
    fn default() -> (e: Self)
        ensures
            e@ == init_encoder(),
            e.wf(),
    {
        Self::new()
    }
}

impl MqEncoder {
    /// Between calls the interval is normalised and its position is bounded.
    pub open spec fn wf(&self) -> bool {
        &&& self@.bounded()
        &&& 0x8000 <= self@.a < 0x1_0000
        &&& self@.ct >= 1
    }

    /// A fresh encoder.
    pub fn new() -> (e: Self)
        ensures
            e@ == init_encoder(),
            e.wf(),
    {
        proof {
            lemma_units();
        }
        MqEncoder { a: 0x8000, c: 0, ct: 12, out: Vec::new() }
    }

    /// BYTEOUT (T.800 §C.2.7).
    fn byteout(&mut self)
        requires
            (EncoderState { a: 1, ..old(self)@ }).bounded(),
            old(self)@.ct == 0,
        ensures
            final(self)@ == old(self)@.byteout(),
    {
        proof {
            reveal(EncoderState::byteout);
            lemma_units();
            lemma_bounded_small(EncoderState { a: 1, ..self@ });
        }
        let n: usize = self.out.len();
        let last: u8 = if n > 0 { self.out[n - 1] } else { 0 };
        let mut seven: bool = last == 0xFF;
        if !seven && self.c >= 0x800_0000 {
            self.out.set(n - 1, last + 1);
            self.c = self.c % 0x800_0000;
            seven = last + 1 == 0xFF;
        }
        if seven {
            self.out.push((self.c / 0x10_0000 % 0x100) as u8);
            self.c = self.c % 0x10_0000;
            self.ct = 7;
        } else {
            self.out.push((self.c / 0x8_0000 % 0x100) as u8);
            self.c = self.c % 0x8_0000;
            self.ct = 8;
        }
    }

    /// RENORME (T.800 §C.2.6).
    fn renorme(&mut self)
        requires
            old(self)@.bounded(),
            old(self)@.a < 0x8000,
            old(self)@.ct >= 1,
        ensures
            final(self)@ == old(self)@.renorm(),
            final(self).wf(),
    {
        while self.a < 0x8000
            invariant
                self@.bounded(),
                self@.ct >= 1,
                self@.a < 0x1_0000,
                self@.renorm() == old(self)@.renorm(),
            decreases 0x1_0000 - self.a,
        {
            let ghost s = self@;
            proof {
                lemma_units();
                lemma_shift_bounded(s);
                lemma_scaled_bounded(s, 1);
                lemma_bounded_small(s);
                lemma_byteout_any_size(EncoderState { c: s.c * 2, ct: s.ct - 1, ..s }, s.a * 2);
            }
            self.a = self.a * 2;
            self.c = self.c * 2;
            self.ct = self.ct - 1;
            if self.ct == 0 {
                self.byteout();
            }
            assert(self@ == s.shift());
        }
    }

    /// Encodes the decision `d` (0, or anything else for 1) against the context
    /// `cx`.
    pub fn encode(&mut self, cx: &mut MqContext, d: u8)
        requires
            old(self).wf(),
        ensures
            final(self).wf(),
            (final(self)@, final(cx)@) == encode_symbol(old(self)@, old(cx)@, d != 0),
    {
        let index: u8 = cx.index();
        proof {
            lemma_qe_row(cx@.index);
            lemma_bounded_small(self@);
        }
        let qe: u32 = qe_entry(index).qe as u32;
        let rest: u32 = self.a - qe;
        let more_probable: bool = (d != 0) == cx.mps();
        if more_probable && rest >= 0x8000 {
            self.a = rest;
            self.c = self.c + qe as u64;
        } else {
            if more_probable == (rest < qe) {
                self.a = qe;
            } else {
                self.a = rest;
                self.c = self.c + qe as u64;
            }
            if more_probable {
                cx.adapt_mps();
            } else {
                cx.adapt_lps();
            }
            self.renorme();
        }
    }

    /// Moves the rest of the current byte out.
    fn drain(&mut self)
        requires
            old(self)@.ct >= 1,
            (EncoderState { a: 1, ..old(self)@ }).bounded(),
        ensures
            final(self)@ == old(self)@.drain(),
            final(self)@.ct >= 1,
            final(self)@.out.len() == old(self)@.out.len() + 1,
            (EncoderState { a: 1, ..final(self)@ }).bounded(),
    {
        proof {
            lemma_drain(self@);
            vstd::bits::lemma_u64_shl_is_mul(self.c, self.ct as u64);
        }
        self.c = self.c << (self.ct as u64);
        self.ct = 0;
        self.byteout();
    }

    /// Ends the segment and hands back its bytes.
    ///
    /// The segment never ends on `0xFF` and holds no marker.
    pub fn flush(self) -> (bytes: Vec<u8>)
        requires
            self.wf(),
        ensures
            bytes@ == self@.flush(),
            bytes@.len() >= 1,
            bytes@.last() != 0xFF,
            no_marker(bytes@),
    {
        let mut e = self;
        proof {
            lemma_bounded_small(e@);
            lemma_setbits(e@);
            lemma_part_bounded(e@, EncoderState { a: 1, ..e@.setbits() });
        }
        let ones: u64 = e.c / 0x1_0000 * 0x1_0000 + 0xFFFF;
        e.c = if ones >= e.c + e.a as u64 { ones - 0x8000 } else { ones };
        assert(e@ == self@.setbits());
        e.drain();
        e.drain();
        let n: usize = e.out.len();
        let mut bytes: Vec<u8> = e.out;
        if bytes[n - 1] == 0xFF {
            bytes.pop();
        }
        bytes
    }
}

} // verus!
