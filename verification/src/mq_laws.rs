//! What the MQ coder does, in terms of the intervals of T.800 Annex C.
use vstd::arithmetic::power2::{lemma_pow2_unfold, pow2};
use vstd::prelude::*;

use crate::mq::{
    decode_symbol, decoder_renorm, decoder_shift, init_decoder, lemma_qe_row, qe_row, read_byte,
    ContextState, DecoderState,
};
use crate::mqenc::{
    encode_symbol, init_encoder, lemma_drain, lemma_part_bounded, lemma_setbits, lemma_units,
    EncoderState,
};

verus! {

/// A less probable symbol flips the sense of the more probable one in rows 0, 6 and 14 and
/// in no other; a more probable symbol never does.
pub proof fn law_switch(cx: ContextState)
    requires
        cx.valid(),
    ensures
        cx.after_lps().mps != cx.mps <==> cx.index == 0 || cx.index == 6 || cx.index == 14,
        cx.after_mps().mps == cx.mps,
{
    reveal(qe_row);
}

/// A more probable symbol leads one row on. The two start-up runs lead into the long run,
/// which ends in row 45; row 46 stands alone.
pub proof fn law_after_mps(cx: ContextState)
    requires
        cx.valid(),
    ensures
        cx.after_mps().index == if cx.index == 5 {
            38
        } else if cx.index == 13 {
            29
        } else if cx.index == 45 || cx.index == 46 {
            cx.index
        } else {
            cx.index + 1
        },
{
    reveal(qe_row);
}

/// A less probable symbol leads one or two rows back in the long run, and out of the
/// start-up runs into a later one.
pub proof fn law_after_lps(cx: ContextState)
    requires
        cx.valid(),
    ensures
        15 <= cx.index <= 20 ==> cx.after_lps().index == cx.index - 1,
        21 <= cx.index <= 45 ==> cx.after_lps().index == cx.index - 2,
        cx.index == 14 || cx.index == 46 ==> cx.after_lps().index == cx.index,
        cx.index < 14 ==> cx.after_lps().index == seq![
            1int, 6, 9, 12, 29, 33, 6, 14, 14, 14, 17, 18, 20, 21,
        ][cx.index],
{
    reveal(qe_row);
}

/// The sizes of the less probable part fall along the long run; the rows of the start-up
/// runs have sizes of the long run.
pub proof fn law_sizes(cx: ContextState)
    requires
        cx.valid(),
    ensures
        14 <= cx.index <= 45 ==> cx.qe() == seq![
            0x5601int, 0x5401, 0x5101, 0x4801, 0x3801, 0x3401, 0x3001, 0x2801, 0x2401, 0x2201,
            0x1C01, 0x1801, 0x1601, 0x1401, 0x1201, 0x1101, 0x0AC1, 0x09C1, 0x08A1, 0x0521,
            0x0441, 0x02A1, 0x0221, 0x0141, 0x0111, 0x0085, 0x0049, 0x0025, 0x0015, 0x0009,
            0x0005, 0x0001,
        ][cx.index - 14],
        forall|a: ContextState, b: ContextState|
            14 <= a.index < b.index <= 45 ==> #[trigger] a.qe() > #[trigger] b.qe(),
        cx.index < 14 || cx.index == 46 ==> exists|b: ContextState|
            {
                &&& b.index == if cx.index == 46 {
                    14int
                } else {
                    seq![14int, 19, 25, 30, 33, 36, 14, 15, 17, 18, 20, 22, 24, 26][cx.index]
                }
                &&& cx.qe() == #[trigger] b.qe()
            },
{
    reveal(qe_row);
    if cx.index < 14 || cx.index == 46 {
        let i = if cx.index == 46 {
            14int
        } else {
            seq![14int, 19, 25, 30, 33, 36, 14, 15, 17, 18, 20, 22, 24, 26][cx.index]
        };
        let b = ContextState { index: i, mps: false };
        assert(cx.qe() == b.qe());
    }
    assert forall|a: ContextState, b: ContextState|
        14 <= a.index < b.index <= 45 implies #[trigger] a.qe() > #[trigger] b.qe() by {
        lemma_sizes_fall(a.index, b.index);
    }
}

/// Sizes fall from row to row.
proof fn lemma_sizes_fall(i: int, j: int)
    requires
        14 <= i < j <= 45,
    ensures
        qe_row(i).qe > qe_row(j).qe,
    decreases j - i,
{
    reveal(qe_row);
    if i + 1 < j {
        lemma_sizes_fall(i, j - 1);
    }
}

/// What happens to the size of an interval that is renormalised.
proof fn lemma_renorm(data: Seq<u8>, s: DecoderState) -> (n: nat)
    requires
        0 < s.a < 0x1_0000,
        0 <= s.ct,
    ensures
        decoder_renorm(data, s).a == s.a * pow2(n),
        0x8000 <= decoder_renorm(data, s).a < 0x1_0000,
        n <= s.ct ==> decoder_renorm(data, s) == (DecoderState {
            a: s.a * pow2(n),
            c: if n == 0 { s.c } else { s.c * pow2(n) % 0x1_0000_0000 },
            ct: s.ct - n,
            ..s
        }),
    decreases 0x1_0000 - s.a,
{
    lemma_units();
    if s.a >= 0x8000 {
        assert(s.a * 1 == s.a);
        0
    } else {
        let t = decoder_shift(data, s);
        assert(t.a == 2 * s.a);
        assert(0 <= t.ct);
        let m = lemma_renorm(data, t);
        lemma_pow2_unfold(m + 1);
        let p = pow2(m) as int;
        assert(2 * s.a * p == s.a * (2 * p)) by (nonlinear_arith);
        if m + 1 <= s.ct {
            assert(t.c == s.c * 2 % 0x1_0000_0000);
            let c = s.c;
            if m > 0 {
                vstd::arithmetic::div_mod::lemma_mul_mod_noop_left(c * 2, p, 0x1_0000_0000);
                assert(c * 2 * p == c * (2 * p)) by (nonlinear_arith);
            } else {
                assert(p == 1);
                assert(c * (2 * p) == c * 2) by (nonlinear_arith)
                    requires
                        p == 1,
                ;
            }
        }
        m + 1
    }
}

/// A decision is told by where the code lies. The interval is split into a lower part of
/// the size that the row of the context gives, and the rest. The code lies in the lower
/// part if it is below that size. The decision is the more probable symbol if it lies in
/// the greater part, or in the upper one of two equal parts.
pub proof fn law_decision(data: Seq<u8>, s: DecoderState, cx: ContextState)
    requires
        0x8000 <= s.a < 0x1_0000,
        0 <= s.c,
        cx.valid(),
    ensures
        ({
            let low = s.c / 0x1_0000 < cx.qe();
            let part = if low { cx.qe() } else { s.a - cx.qe() };
            let other = s.a - part;
            decode_symbol(data, s, cx).2 == cx.mps <==> part > other || part == other && !low
        }),
{
    lemma_qe_row(cx.index);
}

/// A context stays as it is while the part that was chosen is at least half of the unit
/// interval. Otherwise it moves on as the table says for the symbol that came.
pub proof fn law_decision_adapts(data: Seq<u8>, s: DecoderState, cx: ContextState)
    requires
        0x8000 <= s.a < 0x1_0000,
        0 <= s.c,
        cx.valid(),
    ensures
        ({
            let low = s.c / 0x1_0000 < cx.qe();
            let part = if low { cx.qe() } else { s.a - cx.qe() };
            let (_, after, d) = decode_symbol(data, s, cx);
            &&& part >= 0x8000 ==> after == cx
            &&& part < 0x8000 && d == cx.mps ==> after == cx.after_mps()
            &&& part < 0x8000 && d != cx.mps ==> after == cx.after_lps()
        }),
{
    lemma_qe_row(cx.index);
}

/// The interval after a decision is the part that was chosen, doubled until it is at least
/// half of the unit interval. The code, less the lower part if it did not lie there, is
/// doubled as often; while bits are left no byte is read for that.
pub proof fn law_decision_narrows(data: Seq<u8>, s: DecoderState, cx: ContextState) -> (n: nat)
    requires
        0x8000 <= s.a < 0x1_0000,
        0 <= s.c < 0x1_0000_0000,
        0 <= s.ct,
        cx.valid(),
    ensures
        ({
            let low = s.c / 0x1_0000 < cx.qe();
            let part = if low { cx.qe() } else { s.a - cx.qe() };
            let left = if low { s.c } else { s.c - cx.qe() * 0x1_0000 };
            let (t, _, _) = decode_symbol(data, s, cx);
            &&& t.a == part * pow2(n)
            &&& 0x8000 <= t.a < 0x1_0000
            &&& n <= s.ct ==> {
                &&& t.c == left * pow2(n) % 0x1_0000_0000
                &&& t.ct == s.ct - n
                &&& t.bp == s.bp
            }
        }),
{
    lemma_qe_row(cx.index);
    lemma_units();
    let low = s.c / 0x1_0000 < cx.qe();
    let part = if low { cx.qe() } else { s.a - cx.qe() };
    let left = if low { s.c } else { s.c - cx.qe() * 0x1_0000 };
    assert(0 <= left < 0x1_0000_0000);
    let n = lemma_renorm(data, DecoderState { a: part, c: left, ..s });
    if n == 0 {
        assert(left * 1 == left && part * 1 == part);
        vstd::arithmetic::div_mod::lemma_small_mod(left as nat, 0x1_0000_0000);
    }
    n
}

/// A byte is read behind the bits that are there: eight bits of it, or seven after `0xFF`,
/// whose top bit falls on the lowest bit that was read before. At a marker (`0xFF` before
/// a byte above `0x8F`) and at the end nothing more is read; eight ones take its place.
pub proof fn law_byte_read(data: Seq<u8>, s: DecoderState)
    requires
        0 <= s.bp <= data.len(),
        0 <= s.c < 0x1_0000,
        s.ct == 0,
    ensures
        ({
            let t = read_byte(data, s);
            let stuffed = s.bp < data.len() && data[s.bp] == 0xFF;
            let last = s.bp + 1 >= data.len();
            let next = if last { 0xFFint } else { data[s.bp + 1] as int };
            &&& t.a == s.a
            &&& s.bp < data.len() && !stuffed ==> {
                t.bp == s.bp + 1 && t.ct == 8 && t.c == s.c + next * 0x100
            }
            &&& stuffed && next <= 0x8F ==> {
                t.bp == s.bp + 1 && t.ct == 7 && t.c == s.c + next * 0x200
            }
            &&& stuffed && next > 0x8F || s.bp == data.len() ==> {
                t.bp == s.bp && t.ct == 8 && t.c == s.c + 0xFF00
            }
        }),
{
}

/// A decoder starts with the whole interval and the first bits of the data: sixteen or,
/// after a first byte of `0xFF`, fifteen of them are read, of which all but the last ones
/// stand at the top of the code register.
pub proof fn law_decoder_start(data: Seq<u8>)
    requires
        data.len() >= 2,
        data[0] == 0xFF ==> data[1] <= 0x8F,
    ensures
        ({
            let s = init_decoder(data);
            let first = data[0] as int;
            let second = data[1] as int;
            &&& s.a == 0x8000
            &&& s.bp == 1
            &&& first != 0xFF ==> s.c == (first * 0x100 + second) * 0x8000 && s.ct == 1
            &&& first == 0xFF ==> s.c == (first * 0x80 + second) * 0x1_0000 % 0x1_0000_0000
                && s.ct == 0
        }),
{
}

/// A segment starts with the whole interval, and its first byte is complete after twelve
/// doublings.
pub proof fn law_encoder_start()
    ensures
        init_encoder().a == 0x8000,
        init_encoder().c == 0,
        init_encoder().ct == 12,
        init_encoder().out.len() == 0,
{
}

/// What happens to the size of an interval that is renormalised.
proof fn lemma_renorm_encoder(s: EncoderState) -> (n: nat)
    requires
        0 < s.a < 0x1_0000,
        1 <= s.ct,
    ensures
        s.renorm().a == s.a * pow2(n),
        0x8000 <= s.renorm().a < 0x1_0000,
        n < s.ct ==> s.renorm() == (EncoderState {
            a: s.a * pow2(n),
            c: s.c * pow2(n),
            ct: s.ct - n,
            ..s
        }),
    decreases 0x1_0000 - s.a,
{
    lemma_units();
    if s.a >= 0x8000 {
        assert(s.a * 1 == s.a && s.c * 1 == s.c);
        0
    } else {
        let t = s.shift();
        reveal(EncoderState::byteout);
        assert(t.a == 2 * s.a);
        assert(1 <= t.ct);
        let m = lemma_renorm_encoder(t);
        lemma_pow2_unfold(m + 1);
        let p = pow2(m) as int;
        assert(2 * s.a * p == s.a * (2 * p)) by (nonlinear_arith);
        assert(2 * s.c * p == s.c * (2 * p)) by (nonlinear_arith);
        m + 1
    }
}

/// A decision is encoded by the part of the interval that is kept. The more probable
/// symbol keeps the greater part, the upper one of two equal parts, the less probable one
/// the other. The lower part has the size that the row of the context gives. What is kept
/// is doubled until it is at least half of the unit interval, and the context moves on if
/// that took place.
pub proof fn law_encoded(s: EncoderState, cx: ContextState, d: bool) -> (n: nat)
    requires
        0x8000 <= s.a < 0x1_0000,
        1 <= s.ct,
        cx.valid(),
    ensures
        ({
            let qe = cx.qe();
            let low = (d == cx.mps) == (qe > s.a - qe);
            let part = if low { qe } else { s.a - qe };
            let base = if low { s.c } else { s.c + qe };
            let (t, after) = encode_symbol(s, cx, d);
            &&& t.a == part * pow2(n)
            &&& 0x8000 <= t.a < 0x1_0000
            &&& n < s.ct ==> t.c == base * pow2(n) && t.ct == s.ct - n && t.out == s.out
            &&& part >= 0x8000 ==> after == cx
            &&& part < 0x8000 && d == cx.mps ==> after == cx.after_mps()
            &&& part < 0x8000 && d != cx.mps ==> after == cx.after_lps()
        }),
{
    lemma_qe_row(cx.index);
    lemma_units();
    let qe = cx.qe();
    let low = (d == cx.mps) == (qe > s.a - qe);
    let part = if low { qe } else { s.a - qe };
    let base = if low { s.c } else { s.c + qe };
    let n = lemma_renorm_encoder(EncoderState { a: part, c: base, ..s });
    assert(part * 1 == part && base * 1 == base);
    n
}

/// Completing a byte loses nothing: the last byte and the register together are worth what
/// the bytes and the register are worth after it. A byte takes eight bits, and seven where
/// the one before it is `0xFF`. Bytes before the last one stay.
pub proof fn law_byte_written(s: EncoderState)
    requires
        (EncoderState { a: 1, ..s }).bounded(),
        s.ct == 0,
    ensures
        ({
            let t = s.byteout();
            let n = s.out.len();
            let new = t.out.last() as int;
            let before = if n == 0 { 0int } else { t.out[n - 1] as int };
            &&& t.out.len() == n + 1
            &&& forall|i: int| 0 <= i < n - 1 ==> t.out[i] == s.out[i]
            &&& before != 0xFF ==> {
                &&& t.ct == 8
                &&& 0 <= t.c < 0x8_0000
                &&& s.last() * 0x800_0000 + s.c == before * 0x800_0000 + new * 0x8_0000 + t.c
            }
            &&& before == 0xFF ==> {
                &&& t.ct == 7
                &&& 0 <= t.c < 0x10_0000
                &&& s.last() * 0x800_0000 + s.c == before * 0x800_0000 + new * 0x10_0000 + t.c
            }
        }),
{
    reveal(EncoderState::byteout);
    lemma_units();
    let b = EncoderState { a: 1, ..s };
    assert(b.last() == s.last());
    assert(pow2((27 - b.ct) as nat) == 0x800_0000);
    let c = s.c;
    assert(c < 0x900_0000);
    let n = s.out.len();
    if n >= 2 && s.out[n - 2] == 0xFF {
        assert(s.last() * 0x800_0000 + c + 1 <= 0x90 * 0x800_0000);
    }
}

/// At the end of a segment the code is moved up inside the interval: only its low sixteen
/// bits change, and they become ones, but for the first if that would leave the interval.
pub proof fn law_set_bits(s: EncoderState)
    requires
        0 <= s.c,
        0x8000 <= s.a < 0x1_0000,
    ensures
        ({
            let c = s.setbits().c;
            &&& s.c <= c < s.c + s.a
            &&& c / 0x1_0000 == s.c / 0x1_0000
            &&& c % 0x8000 == 0x7FFF
            &&& c % 0x1_0000 == 0x7FFF <==> s.c - s.c % 0x1_0000 + 0xFFFF >= s.c + s.a
        }),
{
}

/// A doubling of the decoder reads a byte first if no bit is left, and then doubles interval
/// and code.
pub proof fn law_decoder_doubles(data: Seq<u8>, s: DecoderState)
    requires
        0 < s.a < 0x8000,
        0 <= s.c < 0x1_0000_0000,
        0 <= s.ct,
    ensures
        ({
            let from = if s.ct > 0 { s } else { read_byte(data, s) };
            let t = decoder_shift(data, s);
            &&& decoder_renorm(data, s) == decoder_renorm(data, t)
            &&& t.a == 2 * from.a
            &&& t.c == 2 * from.c || t.c == 2 * from.c - 0x1_0000_0000
            &&& 0 <= t.c < 0x1_0000_0000
            &&& t.ct == from.ct - 1
            &&& t.bp == from.bp
        }),
{
}

/// A doubling of the encoder doubles interval and code, and completes a byte when all its
/// bits are there.
pub proof fn law_encoder_doubles(s: EncoderState)
    requires
        0 < s.a < 0x8000,
        1 <= s.ct,
    ensures
        ({
            let doubled = EncoderState { a: 2 * s.a, c: 2 * s.c, ct: s.ct - 1, ..s };
            &&& s.renorm() == s.shift().renorm()
            &&& s.ct > 1 ==> s.shift() == doubled
            &&& s.ct == 1 ==> s.shift() == doubled.byteout()
        }),
{
    reveal(EncoderState::byteout);
}

/// A segment ends with what is in the register: the code is moved up in the interval, the
/// bits that are missing for a byte are filled with zeros, and once more, and a last byte of
/// `0xFF` is left away. So one or two bytes come behind those that are complete, of which
/// only the last can still be raised by a carry.
pub proof fn law_flushed(s: EncoderState)
    requires
        s.bounded(),
        0x8000 <= s.a < 0x1_0000,
        1 <= s.ct,
    ensures
        ({
            let full = s.setbits().drain().drain().out;
            let n = s.out.len();
            &&& full.len() == n + 2
            &&& s.flush() == if full.last() == 0xFF { full.take(n as int + 1) } else { full }
            &&& forall|i: int| 0 <= i < n - 1 ==> #[trigger] full[i] == s.out[i]
        }),
        s.drain() == (EncoderState { c: s.c * pow2(s.ct as nat), ct: 0, ..s }).byteout(),
{
    let a = s.setbits();
    lemma_setbits(s);
    lemma_part_bounded(s, EncoderState { a: 1, ..a });
    lemma_drain(a);
    law_byte_written(EncoderState { c: a.c * pow2(a.ct as nat), ct: 0, ..a });
    let b = a.drain();
    lemma_drain(b);
    law_byte_written(EncoderState { c: b.c * pow2(b.ct as nat), ct: 0, ..b });
    let full = b.drain().out;
    assert(full.drop_last() =~= full.take(s.out.len() as int + 1));
    assert forall|i: int| 0 <= i < s.out.len() - 1 implies #[trigger] full[i] == s.out[i] by {
        assert(full[i] == b.out[i]);
    }
}

} // verus!
