//! The MQ decoder reads back what the MQ encoder wrote.
//!
//! The bytes of a segment are the digits of one number: byte `i` weighs
//! `2^-p`, where `p` counts eight bits per byte and seven for a byte after
//! `0xFF`. The encoder's registers describe an interval of such numbers, each step
//! selects a part of it, and the segment that [`EncoderState::flush`] makes lies in
//! the last one. The decoder follows the same intervals; its code register holds
//! the distance from the base of the interval to the digits that it has read.
use vstd::arithmetic::power2::{lemma_pow2_adds, lemma_pow2_pos, lemma_pow2_unfold, pow2};
use vstd::prelude::*;

use crate::mq::{
    data_byte, decode_symbol, decoder_renorm, decoder_shift, init_decoder, lemma_qe_row, read_byte,
    ContextState, DecoderState,
};
use crate::mqenc::{
    encode_symbol, init_encoder, lemma_bounded_small, lemma_byteout_any_size, lemma_byteout_bounded,
    lemma_drain, lemma_part_bounded, lemma_scaled_bounded, lemma_setbits, lemma_shift_bounded,
    lemma_units, no_marker, EncoderState,
};

verus! {

/// The registers after the decisions of `plan`, each coded against the context
/// that its first half selects.
pub open spec fn encode_all(
    s: EncoderState,
    cxs: Seq<ContextState>,
    plan: Seq<(int, bool)>,
) -> EncoderState
    decreases plan.len(),
{
    if plan.len() == 0 {
        s
    } else {
        let (slot, d) = plan[0];
        let (s1, cx) = encode_symbol(s, cxs[slot], d);
        encode_all(s1, cxs.update(slot, cx), plan.drop_first())
    }
}

/// The decisions that are decoded against the contexts selected by `slots`.
pub open spec fn decode_all(
    data: Seq<u8>,
    s: DecoderState,
    cxs: Seq<ContextState>,
    slots: Seq<int>,
) -> Seq<bool>
    decreases slots.len(),
{
    if slots.len() == 0 {
        Seq::empty()
    } else {
        let (s1, cx, d) = decode_symbol(data, s, cxs[slots[0]]);
        seq![d] + decode_all(data, s1, cxs.update(slots[0], cx), slots.drop_first())
    }
}

/// The contexts of the encoder after each decision.
pub open spec fn encoder_contexts(
    s: EncoderState,
    cxs: Seq<ContextState>,
    plan: Seq<(int, bool)>,
) -> Seq<Seq<ContextState>>
    decreases plan.len(),
{
    if plan.len() == 0 {
        Seq::empty()
    } else {
        let (slot, d) = plan[0];
        let (s1, cx) = encode_symbol(s, cxs[slot], d);
        let next = cxs.update(slot, cx);
        seq![next] + encoder_contexts(s1, next, plan.drop_first())
    }
}

/// The contexts of the decoder after each decision.
pub open spec fn decoder_contexts(
    data: Seq<u8>,
    s: DecoderState,
    cxs: Seq<ContextState>,
    slots: Seq<int>,
) -> Seq<Seq<ContextState>>
    decreases slots.len(),
{
    if slots.len() == 0 {
        Seq::empty()
    } else {
        let (s1, cx, d) = decode_symbol(data, s, cxs[slots[0]]);
        let next = cxs.update(slots[0], cx);
        seq![next] + decoder_contexts(data, s1, next, slots.drop_first())
    }
}

/// Every context is valid and every slot selects one.
pub open spec fn contexts_valid(cxs: Seq<ContextState>, slots: Seq<int>) -> bool {
    &&& forall|i: int| 0 <= i < cxs.len() ==> (#[trigger] cxs[i]).valid()
    &&& forall|i: int| 0 <= i < slots.len() ==> 0 <= #[trigger] slots[i] < cxs.len()
}

/// How many bits byte `i` adds.
spec fn width(s: Seq<u8>, i: int) -> nat {
    if 1 <= i < s.len() && s[i - 1] == 0xFF {
        7
    } else {
        8
    }
}

/// The number whose digits are the first `n` bytes; past the end they are `0xFF`.
spec fn prefix_value(s: Seq<u8>, n: nat) -> int
    decreases n,
{
    if n == 0 {
        0
    } else {
        prefix_value(s, (n - 1) as nat) * pow2(width(s, n - 1)) + data_byte(s, n - 1)
    }
}

/// The position of the lowest bit of byte `n - 1`.
spec fn prefix_bits(s: Seq<u8>, n: nat) -> nat
    decreases n,
{
    if n == 0 {
        0
    } else {
        prefix_bits(s, (n - 1) as nat) + width(s, n - 1)
    }
}

/// The base of the encoder's interval, in units of the lowest bit of `a`.
spec fn base(s: EncoderState) -> int {
    prefix_value(s.out, s.out.len()) * pow2((27 - s.ct) as nat) + s.c
}

/// The position of the lowest bit of `a`.
spec fn position(s: EncoderState) -> int {
    prefix_bits(s.out, s.out.len()) + 27 - s.ct
}

/// The numbers that begin with the first `n` bytes of `full` meet the interval of
/// `a` numbers from `v` at position `p`.
spec fn meets(full: Seq<u8>, n: nat, v: int, a: int, p: int) -> bool {
    &&& prefix_value(full, n) * pow2(p as nat) < (v + a) * pow2(prefix_bits(full, n))
    &&& v * pow2(prefix_bits(full, n)) < (prefix_value(full, n) + 1) * pow2(p as nat)
}

/// `full` is what the encoder may still end up with: it continues the completed
/// bytes, the last of which may yet take a carry, and every longer prefix of it
/// meets the interval.
spec fn leads_to(s: EncoderState, full: Seq<u8>) -> bool {
    let n = s.out.len();
    &&& n <= full.len()
    &&& forall|i: int| 0 <= i < n - 1 ==> full[i] == s.out[i]
    &&& n > 0 ==> {
        ||| full[n - 1] == s.out[n - 1]
        ||| {
            &&& s.out[n - 1] != 0xFF
            &&& full[n - 1] == s.out[n - 1] + 1
            &&& (prefix_value(s.out, n) + 1) * pow2((27 - s.ct) as nat) < base(s) + s.a
        }
    }
    &&& forall|m: nat| n < m ==> #[trigger] meets(full, m, base(s), s.a, position(s))
}

/// Prefixes depend on the bytes before them only.
proof fn lemma_prefix_same(x: Seq<u8>, y: Seq<u8>, n: nat)
    requires
        n <= x.len(),
        n <= y.len(),
        forall|i: int| 0 <= i < n ==> x[i] == y[i],
    ensures
        prefix_value(x, n) == prefix_value(y, n),
        prefix_bits(x, n) == prefix_bits(y, n),
    decreases n,
{
    if n > 0 {
        lemma_prefix_same(x, y, (n - 1) as nat);
    }
}

/// The position of a byte depends on the bytes before it only.
proof fn lemma_prefix_bits_same(x: Seq<u8>, y: Seq<u8>, n: nat)
    requires
        n <= x.len(),
        n <= y.len(),
        forall|i: int| 0 <= i < n - 1 ==> x[i] == y[i],
    ensures
        prefix_bits(x, n) == prefix_bits(y, n),
{
    if n > 0 {
        lemma_prefix_same(x, y, (n - 1) as nat);
    }
}

/// Positions grow with the number of bytes.
proof fn lemma_prefix_bits_monotone(x: Seq<u8>, m: nat, n: nat)
    requires
        m <= n,
    ensures
        prefix_bits(x, m) <= prefix_bits(x, n),
    decreases n - m,
{
    if m < n {
        lemma_prefix_bits_monotone(x, m, (n - 1) as nat);
    }
}

/// Leaving out a final `0xFF` changes no prefix.
proof fn lemma_prefix_without_last(full: Seq<u8>, n: nat)
    requires
        full.len() > 0,
        full.last() == 0xFF,
        no_marker(full),
    ensures
        prefix_value(full, n) == prefix_value(full.drop_last(), n),
        prefix_bits(full, n) == prefix_bits(full.drop_last(), n),
    decreases n,
{
    if n > 0 {
        lemma_prefix_without_last(full, (n - 1) as nat);
        let i = n - 1;
        if i == full.len() - 1 && i >= 1 {
            assert(full[i] == 0xFF);
            assert(full[i - 1] != 0xFF);
        }
        assert(width(full, i) == width(full.drop_last(), i));
        assert(data_byte(full, i) == data_byte(full.drop_last(), i));
    }
}

/// Past the end every bit is a one.
proof fn lemma_prefix_fill(full: Seq<u8>, j: nat)
    ensures
        prefix_value(full, full.len() + j) + 1 == (prefix_value(full, full.len()) + 1) * pow2(8 * j),
        prefix_bits(full, full.len() + j) == prefix_bits(full, full.len()) + 8 * j,
    decreases j,
{
    lemma_units();
    if j > 0 {
        let k = (j - 1) as nat;
        lemma_prefix_fill(full, k);
        let n = full.len() + j;
        assert((n - 1) as nat == full.len() + k);
        assert(width(full, n - 1) == 8);
        lemma_pow2_adds(8 * k, 8);
        let b = prefix_value(full, full.len()) + 1;
        assert(b * pow2(8 * k) * 0x100 == b * pow2(8 * j)) by (nonlinear_arith)
            requires
                pow2(8 * j) == pow2(8 * k) * 0x100,
        ;
    } else {
        assert((prefix_value(full, full.len()) + 1) * pow2(0) == prefix_value(full, full.len()) + 1);
    }
}

/// A prefix that meets a part of an interval meets the interval.
proof fn lemma_meets_part(full: Seq<u8>, m: nat, v: int, a: int, w: int, b: int, p: int)
    requires
        meets(full, m, w, b, p),
        v <= w,
        w + b <= v + a,
    ensures
        meets(full, m, v, a, p),
{
    let k = pow2(prefix_bits(full, m));
    assert((w + b) * k <= (v + a) * k) by (nonlinear_arith)
        requires
            w + b <= v + a,
            k >= 0,
    ;
    assert(v * k <= w * k) by (nonlinear_arith)
        requires
            v <= w,
            k >= 0,
    ;
}

/// Meeting an interval does not depend on the unit in which it is measured.
proof fn lemma_meets_double(full: Seq<u8>, m: nat, v: int, a: int, p: int)
    requires
        0 <= p,
        meets(full, m, 2 * v, 2 * a, p + 1),
    ensures
        meets(full, m, v, a, p),
{
    let x = prefix_value(full, m);
    let k = pow2(prefix_bits(full, m));
    let u = pow2(p as nat);
    lemma_pow2_unfold((p + 1) as nat);
    let u2 = pow2((p + 1) as nat);
    assert(x * u < (v + a) * k) by (nonlinear_arith)
        requires
            x * u2 < (2 * v + 2 * a) * k,
            u2 == 2 * u,
    ;
    assert(v * k < (x + 1) * u) by (nonlinear_arith)
        requires
            2 * v * k < (x + 1) * u2,
            u2 == 2 * u,
    ;
}

/// At position `p = q + e`, where `q` is the position of the prefix.
proof fn lemma_meets_above(full: Seq<u8>, m: nat, v: int, a: int, e: nat)
    ensures
        meets(full, m, v, a, (prefix_bits(full, m) + e) as int) <==> {
            &&& prefix_value(full, m) * pow2(e) < v + a
            &&& v < (prefix_value(full, m) + 1) * pow2(e)
        },
{
    let x = prefix_value(full, m);
    let q = prefix_bits(full, m);
    let k = pow2(q);
    lemma_pow2_adds(q, e);
    lemma_pow2_pos(q);
    let u = pow2(e);
    assert(x * (k * u) < (v + a) * k <==> x * u < v + a) by (nonlinear_arith)
        requires
            k > 0,
    ;
    assert(v * k < (x + 1) * (k * u) <==> v < (x + 1) * u) by (nonlinear_arith)
        requires
            k > 0,
    ;
}

/// At position `p`, where the prefix reaches `e` bits further.
proof fn lemma_meets_below(full: Seq<u8>, m: nat, v: int, a: int, p: nat, e: nat)
    requires
        prefix_bits(full, m) == p + e,
    ensures
        meets(full, m, v, a, p as int) <==> {
            &&& prefix_value(full, m) < (v + a) * pow2(e)
            &&& v * pow2(e) < prefix_value(full, m) + 1
        },
{
    let x = prefix_value(full, m);
    let k = pow2(p);
    lemma_pow2_adds(p, e);
    lemma_pow2_pos(p);
    let u = pow2(e);
    assert(x * k < (v + a) * (k * u) <==> x < (v + a) * u) by (nonlinear_arith)
        requires
            k > 0,
    ;
    assert(v * (k * u) < (x + 1) * k <==> v * u < x + 1) by (nonlinear_arith)
        requires
            k > 0,
    ;
}

/// What a part of the interval leads to, the interval leads to.
proof fn lemma_leads_part(s: EncoderState, t: EncoderState, full: Seq<u8>)
    requires
        leads_to(t, full),
        t.out == s.out,
        t.ct == s.ct,
        s.c <= t.c,
        t.c + t.a <= s.c + s.a,
    ensures
        leads_to(s, full),
{
    assert forall|m: nat| s.out.len() < m implies #[trigger] meets(
        full,
        m,
        base(s),
        s.a,
        position(s),
    ) by {
        assert(meets(full, m, base(t), t.a, position(t)));
        lemma_meets_part(full, m, base(s), s.a, base(t), t.a, position(s));
    }
}

/// A shift only changes the unit.
proof fn lemma_leads_double(s: EncoderState, full: Seq<u8>)
    requires
        1 <= s.ct <= 12,
        leads_to(EncoderState { a: s.a * 2, c: s.c * 2, ct: s.ct - 1, ..s }, full),
    ensures
        leads_to(s, full),
{
    let t = EncoderState { a: s.a * 2, c: s.c * 2, ct: s.ct - 1, ..s };
    lemma_pow2_unfold((27 - t.ct) as nat);
    let x = prefix_value(s.out, s.out.len());
    let u = pow2((27 - s.ct) as nat);
    let u2 = pow2((27 - t.ct) as nat);
    assert(x * u2 == 2 * (x * u) && (x + 1) * u2 == 2 * ((x + 1) * u)) by (nonlinear_arith)
        requires
            u2 == 2 * u,
    ;
    assert(base(t) == 2 * base(s));
    assert forall|m: nat| s.out.len() < m implies #[trigger] meets(
        full,
        m,
        base(s),
        s.a,
        position(s),
    ) by {
        assert(meets(full, m, base(t), t.a, position(t)));
        lemma_meets_double(full, m, base(s), s.a, position(s));
    }
}

/// Moving up by `k` bits only changes the unit.
proof fn lemma_leads_scaled(s: EncoderState, k: nat, full: Seq<u8>)
    requires
        k <= s.ct <= 12,
        leads_to(EncoderState { a: s.a * pow2(k), c: s.c * pow2(k), ct: s.ct - k, ..s }, full),
    ensures
        leads_to(s, full),
    decreases k,
{
    lemma_units();
    if k > 0 {
        let t = EncoderState { a: s.a * 2, c: s.c * 2, ct: s.ct - 1, ..s };
        lemma_pow2_unfold(k);
        let h = pow2((k - 1) as nat);
        assert(t.a * h == s.a * pow2(k) && t.c * h == s.c * pow2(k)) by (nonlinear_arith)
            requires
                t.a == s.a * 2,
                t.c == s.c * 2,
                pow2(k) == 2 * h,
        ;
        lemma_leads_scaled(t, (k - 1) as nat, full);
        lemma_leads_double(s, full);
    } else {
        assert(s.a * pow2(0) == s.a && s.c * pow2(0) == s.c);
    }
}

/// Completing a byte changes neither the base nor the position, and what is left
/// in the register is less than one unit of that byte.
proof fn lemma_byteout_base(s: EncoderState)
    requires
        s.bounded(),
        s.ct == 0,
    ensures
        base(s.byteout()) == base(s),
        position(s.byteout()) == position(s),
        0 <= s.byteout().c < pow2((27 - s.byteout().ct) as nat),
        s.byteout().c == s.c % (pow2((27 - s.byteout().ct) as nat) as int),
        forall|i: int| 0 <= i < s.out.len() - 1 ==> s.byteout().out[i] == s.out[i],
        s.out.len() > 0 ==> {
            let last = s.byteout().out[s.out.len() - 1];
            ||| last == s.out.last()
            ||| last == s.out.last() + 1 && s.out.last() != 0xFF && s.c >= 0x800_0000
        },
{
    reveal(EncoderState::byteout);
    lemma_units();
    lemma_bounded_small(s);
    lemma_byteout_bounded(s);
    let t = s.byteout();
    let n = s.out.len();
    let carry = s.last() != 0xFF && s.c >= 0x800_0000;
    let c = if carry { s.c - 0x800_0000 } else { s.c };
    let x = prefix_value(s.out, n);
    let y = prefix_value(t.out, n);
    assert(t.out.len() == n + 1);
    assert(y == if carry { x + 1 } else { x } && prefix_bits(t.out, n) == prefix_bits(s.out, n)) by {
        if carry {
            assert(n > 0);
            lemma_prefix_same(s.out, t.out, (n - 1) as nat);
        } else {
            lemma_prefix_same(s.out, t.out, n);
        }
    }
    let w = width(t.out, n as int);
    assert(w == t.ct);
    let b = t.out[n as int] as int;
    let u = pow2((27 - t.ct) as nat);
    assert(prefix_value(t.out, (n + 1) as nat) == y * pow2(w) + b);
    assert(b * u + t.c == c && pow2(w) * u == 0x800_0000) by {
        if t.ct == 7 {
            assert(b * 0x10_0000 + t.c == c);
            assert(b * u == b * 0x10_0000 && pow2(w) * u == 0x80 * 0x10_0000);
        } else {
            assert(b * 0x8_0000 + t.c == c);
            assert(b * u == b * 0x8_0000 && pow2(w) * u == 0x100 * 0x8_0000);
        }
    }
    assert((y * pow2(w) + b) * u + t.c == y * 0x800_0000 + c) by (nonlinear_arith)
        requires
            b * u + t.c == c,
            pow2(w) * u == 0x800_0000,
    ;
    assert(x * pow2((27 - s.ct) as nat) == x * 0x800_0000);
}

/// What the state after a completed byte leads to, the state before it leads to.
proof fn lemma_leads_byteout(s: EncoderState, full: Seq<u8>)
    requires
        s.bounded(),
        s.ct == 0,
        leads_to(s.byteout(), full),
    ensures
        leads_to(s, full),
{
    lemma_byteout_base(s);
    lemma_byteout_bounded(s);
    lemma_units();
    let t = s.byteout();
    let n = s.out.len();
    let k = (n + 1) as nat;
    let v = base(s);
    let x = prefix_value(t.out, k);
    let u = pow2((27 - t.ct) as nat);
    let e = (27 - t.ct) as nat;
    assert(v == x * u + t.c);
    if full[n as int] == t.out[n as int] {
        assert forall|i: int| 0 <= i < k implies full[i] == t.out[i] by {}
        lemma_prefix_same(full, t.out, k);
        lemma_meets_above(full, k, v, s.a, e);
        assert(v < (x + 1) * u) by (nonlinear_arith)
            requires
                v == x * u + t.c,
                t.c < u,
        ;
    } else {
        lemma_prefix_bits_same(full, t.out, k);
        lemma_prefix_same(full, t.out, n);
        assert(prefix_value(full, k) == x + 1);
        lemma_meets_above(full, k, v, s.a, e);
        assert(v < (x + 1 + 1) * u) by (nonlinear_arith)
            requires
                v == x * u + t.c,
                t.c < u,
        ;
    }
    assert forall|m: nat| n < m implies #[trigger] meets(full, m, v, s.a, position(s)) by {
        if m > k {
            assert(meets(full, m, base(t), t.a, position(t)));
        } else {
            assert(m == k);
        }
    }
    assert forall|i: int| 0 <= i < n - 1 implies full[i] == s.out[i] by {
        assert(full[i] == t.out[i]);
    }
    if n > 0 {
        assert(full[n - 1] == t.out[n - 1]);
        let z = prefix_value(s.out, n);
        let unit = pow2((27 - s.ct) as nat);
        if s.c >= 0x800_0000 {
            assert((z + 1) * unit < v + s.a) by (nonlinear_arith)
                requires
                    v == z * unit + s.c,
                    s.c >= unit,
                    s.a > 0,
            ;
        }
    }
}

/// What a shift leads to, the state before it leads to.
proof fn lemma_leads_shift(s: EncoderState, full: Seq<u8>)
    requires
        s.bounded(),
        1 <= s.ct,
        leads_to(s.shift(), full),
    ensures
        leads_to(s, full),
{
    let t = EncoderState { a: s.a * 2, c: s.c * 2, ct: s.ct - 1, ..s };
    lemma_units();
    lemma_scaled_bounded(s, 1);
    if t.ct == 0 {
        lemma_byteout_any_size(t, s.a);
        assert(s.shift() == t.byteout()) by {
            lemma_byteout_any_size(EncoderState { a: s.a, ..t }, t.a);
        }
        lemma_leads_byteout(t, full);
    }
    lemma_leads_double(s, full);
}

/// What renormalisation leads to, the state before it leads to.
proof fn lemma_leads_renorm(s: EncoderState, full: Seq<u8>)
    requires
        s.bounded(),
        1 <= s.ct,
        0 < s.a < 0x1_0000,
        leads_to(s.renorm(), full),
    ensures
        leads_to(s, full),
        s.renorm().bounded(),
        s.renorm().ct >= 1,
        0x8000 <= s.renorm().a < 0x1_0000,
    decreases 0x1_0000 - s.a,
{
    if s.a < 0x8000 {
        lemma_shift_bounded(s);
        lemma_leads_renorm(s.shift(), full);
        lemma_leads_shift(s, full);
    }
}

/// The part of the interval that stands for the decision `d`.
spec fn part(s: EncoderState, cx: ContextState, d: bool) -> EncoderState {
    if (d == cx.mps) == (s.a - cx.qe() < cx.qe()) {
        s.lower(cx.qe())
    } else {
        s.upper(cx.qe())
    }
}

/// The state between calls.
spec fn settled(s: EncoderState) -> bool {
    &&& s.bounded()
    &&& s.ct >= 1
    &&& 0x8000 <= s.a < 0x1_0000
}

/// A symbol selects a part of the interval and renormalises.
proof fn lemma_symbol(s: EncoderState, cx: ContextState, d: bool)
    requires
        settled(s),
        cx.valid(),
    ensures
        part(s, cx, d).bounded(),
        0 < part(s, cx, d).a < 0x1_0000,
        encode_symbol(s, cx, d).0 == part(s, cx, d).renorm(),
        encode_symbol(s, cx, d).1.valid(),
{
    lemma_qe_row(cx.index);
    let t = part(s, cx, d);
    lemma_part_bounded(s, t);
}

/// Renormalisation settles the registers.
proof fn lemma_renorm_settled(s: EncoderState)
    requires
        s.bounded(),
        1 <= s.ct,
        0 < s.a < 0x1_0000,
    ensures
        settled(s.renorm()),
    decreases 0x1_0000 - s.a,
{
    if s.a < 0x8000 {
        lemma_shift_bounded(s);
        lemma_renorm_settled(s.shift());
    }
}

/// The segment that ends in `full` (before a final `0xFF` is left out) lies in the
/// interval.
proof fn lemma_leads_flush(s: EncoderState)
    requires
        settled(s),
    ensures
        leads_to(s, s.setbits().drain().drain().out),
        no_marker(s.setbits().drain().drain().out),
        s.setbits().drain().drain().out.len() >= 2,
{
    lemma_units();
    lemma_setbits(s);
    let c0 = s.setbits();
    let p0 = EncoderState { a: 1, ..c0 };
    lemma_part_bounded(s, p0);
    let k1 = s.ct as nat;
    lemma_drain(c0);
    let w1 = EncoderState { a: pow2(k1) as int, c: c0.c * pow2(k1), ct: 0, ..s };
    lemma_scaled_bounded(p0, k1);
    assert(p0.a * pow2(k1) == pow2(k1));
    assert(w1 == (EncoderState { a: p0.a * pow2(k1), c: p0.c * pow2(k1), ct: p0.ct - k1, ..p0 }));
    let c1 = c0.drain();
    let b1 = w1.byteout();
    lemma_byteout_any_size(w1, s.a);
    assert(c1 == (EncoderState { a: s.a, ..b1 }));
    lemma_byteout_bounded(w1);
    assert(b1 == (EncoderState { a: pow2(k1) as int, ..c1 }));
    lemma_byteout_base(w1);
    let k2 = c1.ct as nat;
    lemma_drain(c1);
    lemma_scaled_bounded(b1, k2);
    let w2 = EncoderState { a: b1.a * pow2(k2), c: b1.c * pow2(k2), ct: 0, ..b1 };
    assert(w2 == (EncoderState { a: b1.a * pow2(k2), c: b1.c * pow2(k2), ct: b1.ct - k2, ..b1 }));
    let b2 = w2.byteout();
    lemma_byteout_any_size(w2, s.a);
    assert(c1.drain() == (EncoderState { a: s.a, ..b2 }));
    lemma_byteout_base(w2);
    lemma_byteout_bounded(w2);
    let full = b2.out;
    lemma_rest_of_ones(c0.c, k1, b1.c, k2, b2.c, (27 - b2.ct) as nat);
    assert(b2.a == pow2(k1) * pow2(k2));
    lemma_leads_filled(b2);
    lemma_leads_byteout(w2, full);
    lemma_leads_scaled(b1, k2, full);
    lemma_leads_byteout(w1, full);
    lemma_leads_scaled(p0, k1, full);
    lemma_leads_part(s, p0, full);
}

/// The bits that the last byte leaves behind are ones down to the interval's size.
proof fn lemma_rest_of_ones(c0: int, k1: nat, c1: int, k2: nat, c2: int, e: nat)
    requires
        c0 % 0x8000 == 0x7FFF,
        1 <= k1 <= 12,
        7 <= k2 <= 8,
        c1 == (c0 * pow2(k1)) % (pow2((27 - k2) as nat) as int),
        19 <= e <= 20,
        c2 == (c1 * pow2(k2)) % (pow2(e) as int),
        0 <= c2,
    ensures
        c2 + pow2(k1) * pow2(k2) >= pow2(e),
{
    lemma_units();
    let q = c0 / 0x8000 + 1;
    let p1 = pow2(k1) as int;
    let h = pow2((k1 - 1) as nat);
    lemma_pow2_unfold(k1);
    lemma_pow2_pos((k1 - 1) as nat);
    let m1 = pow2((27 - k2) as nat) as int;
    let t1 = (c0 * p1) / m1;
    let f = m1 / 0x1_0000;
    assert(m1 == f * 0x1_0000);
    vstd::arithmetic::div_mod::lemma_fundamental_div_mod(c0 * p1, m1);
    let q2 = q * h - f * t1;
    assert(c1 + p1 == 0x1_0000 * q2) by (nonlinear_arith)
        requires
            c0 == q * 0x8000 - 1,
            p1 == 2 * h,
            c0 * p1 == m1 * t1 + c1,
            m1 == f * 0x1_0000,
            q2 == q * h - f * t1,
    ;
    let p2 = pow2(k2) as int;
    let m2 = pow2(e) as int;
    let t2 = (c1 * p2) / m2;
    vstd::arithmetic::div_mod::lemma_fundamental_div_mod(c1 * p2, m2);
    let g = (0x1_0000 * p2) / m2;
    assert(g * m2 == 0x1_0000 * p2) by {
        if e == 19 {
            assert(m2 == 0x8_0000);
        } else {
            assert(m2 == 0x10_0000);
        }
        if k2 == 7 {
            assert(p2 == 0x80);
        } else {
            assert(p2 == 0x100);
        }
    }
    let z = g * q2 - t2;
    assert(c2 + p1 * p2 == m2 * z) by (nonlinear_arith)
        requires
            c1 + p1 == 0x1_0000 * q2,
            c1 * p2 == m2 * t2 + c2,
            g * m2 == 0x1_0000 * p2,
            z == g * q2 - t2,
    ;
    assert(p1 * p2 > 0) by (nonlinear_arith)
        requires
            p1 > 0,
            p2 > 0,
    ;
    assert(z >= 1) by (nonlinear_arith)
        requires
            m2 * z > 0,
            m2 > 0,
    ;
    assert(m2 * z >= m2) by (nonlinear_arith)
        requires
            z >= 1,
            m2 > 0,
    ;
}

/// Ones past the end stay in the interval.
proof fn lemma_leads_filled(s: EncoderState)
    requires
        7 <= s.ct <= 8,
        0 <= s.c < pow2((27 - s.ct) as nat),
        s.c + s.a >= pow2((27 - s.ct) as nat),
    ensures
        leads_to(s, s.out),
{
    let full = s.out;
    let n = full.len();
    let x = prefix_value(full, n);
    let e = (27 - s.ct) as nat;
    let u = pow2(e);
    let v = base(s);
    let q = prefix_bits(full, n);
    assert forall|m: nat| n < m implies #[trigger] meets(full, m, v, s.a, position(s)) by {
        let j = (m - n) as nat;
        lemma_prefix_fill(full, j);
        let f = pow2(8 * j);
        let y = prefix_value(full, m);
        lemma_pow2_pos(8 * j);
        lemma_pow2_pos(q);
        lemma_pow2_adds(q, e);
        lemma_pow2_adds(q, 8 * j);
        let k = pow2(q);
        assert(y * (k * u) < (v + s.a) * (k * f)) by (nonlinear_arith)
            requires
                y + 1 == (x + 1) * f,
                v == x * u + s.c,
                s.c + s.a >= u,
                u > 0,
                k > 0,
                f > 0,
        {
            assert(v + s.a >= (x + 1) * u);
            assert(y * u < (x + 1) * f * u);
            assert((v + s.a) * f >= (x + 1) * u * f);
            assert(y * u < (v + s.a) * f);
            assert(y * u * k < (v + s.a) * f * k);
        }
        assert(v * (k * f) < (y + 1) * (k * u)) by (nonlinear_arith)
            requires
                y + 1 == (x + 1) * f,
                v == x * u + s.c,
                s.c < u,
                k > 0,
                f > 0,
        {
            assert(v < (x + 1) * u);
            assert(v * f < (x + 1) * u * f);
            assert(v * f * k < (x + 1) * u * f * k);
        }
    }
}

/// A segment as [`EncoderState::flush`] makes it.
spec fn segment(data: Seq<u8>) -> bool {
    &&& data.len() > 0
    &&& data.last() != 0xFF
    &&& no_marker(data)
}

/// The decoder follows the encoder: it has read `m` bytes of `data`, and its code
/// register holds their distance from the base of the encoder's interval.
spec fn follows(s: EncoderState, d: DecoderState, data: Seq<u8>, m: nat) -> bool {
    &&& d.a == s.a
    &&& 0 <= d.ct <= 8
    &&& m >= 1
    &&& d.bp == if m - 1 <= data.len() { m - 1 } else { data.len() as int }
    &&& prefix_bits(data, m) == position(s) + d.ct
    &&& d.c + base(s) * 0x1_0000 == prefix_value(data, m) * pow2((16 - d.ct) as nat)
}

/// `data` leaves out a final `0xFF` of `full` at most.
spec fn same_prefixes(full: Seq<u8>, data: Seq<u8>) -> bool {
    forall|n: nat|
        #![trigger prefix_value(data, n)]
        #![trigger prefix_bits(data, n)]
        prefix_value(full, n) == prefix_value(data, n) && prefix_bits(full, n) == prefix_bits(
            data,
            n,
        )
}

/// A decoder that has `m` bytes is past what the encoder has completed, so that the
/// bytes meet the encoder's interval.
proof fn lemma_follows_meets(s: EncoderState, d: DecoderState, full: Seq<u8>, data: Seq<u8>, m: nat)
    requires
        0 <= s.ct <= 12,
        leads_to(s, full),
        same_prefixes(full, data),
        follows(s, d, data, m),
    ensures
        base(s) * pow2(d.ct as nat) <= prefix_value(data, m),
        prefix_value(data, m) < (base(s) + s.a) * pow2(d.ct as nat),
        0 <= d.c < s.a * 0x1_0000,
{
    let n = s.out.len();
    lemma_prefix_bits_same(full, s.out, n);
    assert(prefix_bits(full, m) == prefix_bits(data, m));
    if m <= n {
        lemma_prefix_bits_monotone(full, m, n);
        assert(false);
    }
    assert(meets(full, m, base(s), s.a, position(s)));
    let e = d.ct as nat;
    lemma_meets_below(full, m, base(s), s.a, position(s) as nat, e);
    let v = base(s);
    let x = prefix_value(data, m);
    let f = pow2((16 - d.ct) as nat);
    let u = pow2(e);
    lemma_units();
    lemma_pow2_adds(e, (16 - d.ct) as nat);
    lemma_pow2_pos((16 - d.ct) as nat);
    assert(v * 0x1_0000 <= x * f && x * f < (v + s.a) * 0x1_0000) by (nonlinear_arith)
        requires
            v * u <= x,
            x < (v + s.a) * u,
            u * f == 0x1_0000,
            f > 0,
    {
        assert(v * u * f <= x * f);
        assert(x * f < (v + s.a) * u * f);
        assert(v * u * f == v * (u * f));
        assert((v + s.a) * u * f == (v + s.a) * (u * f));
    }
}

/// Reading a byte keeps up with the encoder.
proof fn lemma_follows_read(s: EncoderState, d: DecoderState, data: Seq<u8>, m: nat)
    requires
        segment(data),
        follows(s, d, data, m),
        d.ct == 0,
        0 <= d.c < 0x8000_0000,
    ensures
        follows(s, read_byte(data, d), data, (m + 1) as nat),
        read_byte(data, d).ct >= 7,
{
    lemma_units();
    let t = read_byte(data, d);
    let b = data_byte(data, m as int);
    let w = width(data, m as int);
    if d.bp < data.len() && data[d.bp] == 0xFF {
        assert(d.bp == m - 1);
        assert(d.bp + 1 < data.len());
        assert(data[d.bp + 1] <= 0x8F);
        assert(w == 7);
    } else {
        assert(w == 8);
    }
    assert(t.ct == w);
    let x = prefix_value(data, m);
    assert(prefix_value(data, (m + 1) as nat) == x * pow2(w) + b);
    let f = pow2((16 - w) as nat);
    lemma_pow2_adds(w, (16 - w) as nat);
    assert(f == 0x200 || f == 0x100) by {
        vstd::arithmetic::power2::lemma2_to64();
    }
    assert(t.c == d.c + b * f) by {
        if w == 7 {
            vstd::arithmetic::power2::lemma2_to64();
            assert(f == 0x200);
            assert(b * f == b * 0x200);
        } else {
            assert(f == 0x100);
            assert(b * f == b * 0x100);
        }
    }
    assert((x * pow2(w) + b) * f == x * 0x1_0000 + b * f) by (nonlinear_arith)
        requires
            pow2(w) * f == 0x1_0000,
    ;
    assert(x * pow2((16 - d.ct) as nat) == x * 0x1_0000);
}

/// A shift keeps up with the encoder.
proof fn lemma_follows_shift(
    s: EncoderState,
    d: DecoderState,
    full: Seq<u8>,
    data: Seq<u8>,
    m: nat,
) -> (k: nat)
    requires
        segment(data),
        same_prefixes(full, data),
        s.bounded(),
        1 <= s.ct,
        s.a < 0x8000,
        leads_to(s, full),
        follows(s, d, data, m),
    ensures
        follows(s.shift(), decoder_shift(data, d), data, k),
{
    lemma_follows_meets(s, d, full, data, m);
    let k = if d.ct == 0 { (m + 1) as nat } else { m };
    let r = if d.ct == 0 { read_byte(data, d) } else { d };
    if d.ct == 0 {
        lemma_follows_read(s, d, data, m);
    }
    lemma_follows_meets(s, r, full, data, k);
    let t = EncoderState { a: s.a * 2, c: s.c * 2, ct: s.ct - 1, ..s };
    lemma_units();
    lemma_scaled_bounded(s, 1);
    lemma_pow2_unfold((27 - t.ct) as nat);
    let x = prefix_value(s.out, s.out.len());
    let u = pow2((27 - s.ct) as nat);
    assert(x * pow2((27 - t.ct) as nat) == 2 * (x * u)) by (nonlinear_arith)
        requires
            pow2((27 - t.ct) as nat) == 2 * u,
    ;
    assert(base(t) == 2 * base(s));
    let y = prefix_value(data, k);
    let f = pow2((16 - r.ct) as nat);
    lemma_pow2_unfold((16 - (r.ct - 1)) as nat);
    assert(y * pow2((16 - (r.ct - 1)) as nat) == 2 * (y * f)) by (nonlinear_arith)
        requires
            pow2((16 - (r.ct - 1)) as nat) == 2 * f,
    ;
    assert(follows(t, decoder_shift(data, d), data, k));
    if t.ct == 0 {
        lemma_byteout_any_size(EncoderState { a: s.a, ..t }, t.a);
        assert(s.shift() == t.byteout());
        lemma_byteout_base(t);
        lemma_byteout_bounded(t);
    }
    k
}

/// Renormalisation keeps up with the encoder.
proof fn lemma_follows_renorm(
    s: EncoderState,
    d: DecoderState,
    full: Seq<u8>,
    data: Seq<u8>,
    m: nat,
) -> (k: nat)
    requires
        segment(data),
        same_prefixes(full, data),
        s.bounded(),
        1 <= s.ct,
        0 < s.a < 0x1_0000,
        leads_to(s.renorm(), full),
        follows(s, d, data, m),
    ensures
        follows(s.renorm(), decoder_renorm(data, d), data, k),
    decreases 0x1_0000 - s.a,
{
    if s.a < 0x8000 {
        lemma_leads_renorm(s, full);
        lemma_shift_bounded(s);
        let m1 = lemma_follows_shift(s, d, full, data, m);
        lemma_follows_renorm(s.shift(), decoder_shift(data, d), full, data, m1)
    } else {
        m
    }
}

/// One decoded symbol is the one that was encoded.
proof fn lemma_follows_symbol(
    s: EncoderState,
    d: DecoderState,
    cx: ContextState,
    bit: bool,
    full: Seq<u8>,
    data: Seq<u8>,
    m: nat,
) -> (k: nat)
    requires
        segment(data),
        same_prefixes(full, data),
        settled(s),
        cx.valid(),
        leads_to(encode_symbol(s, cx, bit).0, full),
        follows(s, d, data, m),
    ensures
        decode_symbol(data, d, cx).1 == encode_symbol(s, cx, bit).1,
        decode_symbol(data, d, cx).2 == bit,
        follows(encode_symbol(s, cx, bit).0, decode_symbol(data, d, cx).0, data, k),
        leads_to(s, full),
        settled(encode_symbol(s, cx, bit).0),
        encode_symbol(s, cx, bit).1.valid(),
{
    lemma_symbol(s, cx, bit);
    lemma_qe_row(cx.index);
    let t = part(s, cx, bit);
    lemma_renorm_settled(t);
    lemma_leads_renorm(t, full);
    lemma_leads_part(s, t, full);
    let q = cx.qe();
    let low = (bit == cx.mps) == (s.a - q < q);
    let e = if low {
        DecoderState { a: q, ..d }
    } else {
        DecoderState { a: d.a - q, c: d.c - q * 0x1_0000, ..d }
    };
    assert(base(t) == base(s) + if low { 0 } else { q });
    assert(follows(t, e, data, m));
    lemma_follows_meets(t, e, full, data, m);
    lemma_follows_meets(s, d, full, data, m);
    assert((d.c / 0x1_0000 < q) == low);
    lemma_follows_renorm(t, e, full, data, m)
}

/// What the whole plan leads to, its beginning leads to.
proof fn lemma_leads_all(
    s: EncoderState,
    cxs: Seq<ContextState>,
    plan: Seq<(int, bool)>,
    full: Seq<u8>,
)
    requires
        settled(s),
        contexts_valid(cxs, plan.map_values(|p: (int, bool)| p.0)),
        leads_to(encode_all(s, cxs, plan), full),
    ensures
        leads_to(s, full),
    decreases plan.len(),
{
    if plan.len() > 0 {
        let (slot, d) = plan[0];
        let slots = plan.map_values(|p: (int, bool)| p.0);
        assert(slots[0] == slot);
        let (s1, cx) = encode_symbol(s, cxs[slot], d);
        lemma_symbol(s, cxs[slot], d);
        let t = part(s, cxs[slot], d);
        lemma_renorm_settled(t);
        let rest = plan.drop_first();
        assert(rest.map_values(|p: (int, bool)| p.0) =~= slots.drop_first());
        lemma_leads_all(s1, cxs.update(slot, cx), rest, full);
        lemma_leads_renorm(t, full);
        lemma_qe_row(cxs[slot].index);
        lemma_leads_part(s, t, full);
    }
}

/// The registers after a plan are settled.
proof fn lemma_all_settled(s: EncoderState, cxs: Seq<ContextState>, plan: Seq<(int, bool)>)
    requires
        settled(s),
        contexts_valid(cxs, plan.map_values(|p: (int, bool)| p.0)),
    ensures
        settled(encode_all(s, cxs, plan)),
    decreases plan.len(),
{
    if plan.len() > 0 {
        let (slot, d) = plan[0];
        let slots = plan.map_values(|p: (int, bool)| p.0);
        assert(slots[0] == slot);
        let (s1, cx) = encode_symbol(s, cxs[slot], d);
        lemma_symbol(s, cxs[slot], d);
        lemma_renorm_settled(part(s, cxs[slot], d));
        let rest = plan.drop_first();
        assert(rest.map_values(|p: (int, bool)| p.0) =~= slots.drop_first());
        lemma_all_settled(s1, cxs.update(slot, cx), rest);
    }
}

/// The decoder that follows the encoder decodes the plan.
proof fn lemma_follows_all(
    s: EncoderState,
    d: DecoderState,
    cxs: Seq<ContextState>,
    plan: Seq<(int, bool)>,
    full: Seq<u8>,
    data: Seq<u8>,
    m: nat,
)
    requires
        segment(data),
        same_prefixes(full, data),
        settled(s),
        contexts_valid(cxs, plan.map_values(|p: (int, bool)| p.0)),
        leads_to(encode_all(s, cxs, plan), full),
        follows(s, d, data, m),
    ensures
        decode_all(data, d, cxs, plan.map_values(|p: (int, bool)| p.0)) == plan.map_values(
            |p: (int, bool)| p.1,
        ),
        decoder_contexts(data, d, cxs, plan.map_values(|p: (int, bool)| p.0)) == encoder_contexts(
            s,
            cxs,
            plan,
        ),
    decreases plan.len(),
{
    let slots = plan.map_values(|p: (int, bool)| p.0);
    let bits = plan.map_values(|p: (int, bool)| p.1);
    if plan.len() > 0 {
        let (slot, bit) = plan[0];
        assert(slots[0] == slot);
        let (s1, cx) = encode_symbol(s, cxs[slot], bit);
        lemma_symbol(s, cxs[slot], bit);
        lemma_renorm_settled(part(s, cxs[slot], bit));
        let rest = plan.drop_first();
        assert(rest.map_values(|p: (int, bool)| p.0) =~= slots.drop_first());
        assert(rest.map_values(|p: (int, bool)| p.1) =~= bits.drop_first());
        let cxs1 = cxs.update(slot, cx);
        lemma_leads_all(s1, cxs1, rest, full);
        let k = lemma_follows_symbol(s, d, cxs[slot], bit, full, data, m);
        let d1 = decode_symbol(data, d, cxs[slot]).0;
        lemma_follows_all(s1, d1, cxs1, rest, full, data, k);
        assert(seq![bit] + bits.drop_first() =~= bits);
    } else {
        assert(bits =~= Seq::<bool>::empty());
    }
}

/// A fresh decoder follows a fresh encoder.
proof fn lemma_follows_init(data: Seq<u8>) -> (m: nat)
    requires
        segment(data),
    ensures
        follows(init_encoder(), init_decoder(data), data, m),
{
    lemma_units();
    let s = init_encoder();
    assert(prefix_value(s.out, 0) == 0 && prefix_bits(s.out, 0) == 0);
    assert(base(s) == 0) by {
        assert(0 * pow2((27 - s.ct) as nat) == 0);
    }
    assert(position(s) == 15);
    reveal_with_fuel(prefix_value, 3);
    reveal_with_fuel(prefix_bits, 3);
    let b0 = data_byte(data, 0);
    let b1 = data_byte(data, 1);
    vstd::arithmetic::power2::lemma2_to64();
    assert(prefix_value(data, 1) == b0) by {
        assert(0 * pow2(8) == 0);
    }
    if data[0] == 0xFF {
        assert(data.len() > 1);
        assert(data[1] <= 0x8F);
    }
    let w = width(data, 1);
    assert(prefix_value(data, 2) == b0 * pow2(w) + b1);
    if w == 7 {
        assert(b0 * pow2(w) == b0 * 0x80);
        assert((b0 * 0x80 + b1) * pow2(16) == (b0 * 0x80 + b1) * 0x1_0000);
    } else {
        assert(b0 * pow2(w) == b0 * 0x100);
        assert((b0 * 0x100 + b1) * pow2(15) == (b0 * 0x100 + b1) * 0x8000);
    }
    2
}

/// The decoder is the inverse of the encoder: for every list of decisions, each
/// coded against one of any number of contexts, the decoder that starts from the
/// same contexts reads the same decisions back from the flushed segment, and after each
/// of them its contexts are those that the encoder had after it.
pub proof fn law_mq_round_trip(cxs: Seq<ContextState>, plan: Seq<(int, bool)>)
    requires
        contexts_valid(cxs, plan.map_values(|p: (int, bool)| p.0)),
    ensures
        ({
            let data = encode_all(init_encoder(), cxs, plan).flush();
            decode_all(data, init_decoder(data), cxs, plan.map_values(|p: (int, bool)| p.0))
                == plan.map_values(|p: (int, bool)| p.1)
        }),
        ({
            let data = encode_all(init_encoder(), cxs, plan).flush();
            decoder_contexts(data, init_decoder(data), cxs, plan.map_values(|p: (int, bool)| p.0))
                == encoder_contexts(init_encoder(), cxs, plan)
        }),
{
    let s0 = init_encoder();
    lemma_units();
    assert(settled(s0));
    lemma_all_settled(s0, cxs, plan);
    let s = encode_all(s0, cxs, plan);
    let full = s.setbits().drain().drain().out;
    lemma_leads_flush(s);
    let data = s.flush();
    if full.last() == 0xFF {
        assert(full[full.len() - 1] == 0xFF);
        assert(full[full.len() - 2] != 0xFF);
        assert(data.last() == full[full.len() - 2]);
        assert(same_prefixes(full, data)) by {
            assert forall|n: nat|
                #![trigger prefix_value(data, n)]
                #![trigger prefix_bits(data, n)]
                prefix_value(full, n) == prefix_value(data, n) && prefix_bits(full, n)
                    == prefix_bits(data, n) by {
                lemma_prefix_without_last(full, n);
            }
        }
        assert(no_marker(data)) by {
            assert forall|i: int, j: int|
                #![trigger data[i], data[j]]
                0 <= i && j == i + 1 && j < data.len() && data[i] == 0xFF implies data[j] <= 0x8F by {
                assert(full[i] == 0xFF && full[j] == data[j]);
            }
        }
    }
    assert(segment(data));
    let m = lemma_follows_init(data);
    lemma_follows_all(s0, init_decoder(data), cxs, plan, full, data, m);
}

} // verus!
