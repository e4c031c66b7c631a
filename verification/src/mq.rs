//! The MQ arithmetic decoder (T.800 Annex C, §C.3) and the probability state
//! machine that it shares with the encoder.
//!
//! A decoder works on a byte slice and hands back one binary decision per call,
//! each against the adaptive state of a context that the caller owns. Its
//! registers are modelled by [`DecoderState`]; [`init_decoder`] and
//! [`decode_symbol`] say what they hold after each call.
use vstd::prelude::*;

verus! {

/// One row of the probability table (T.800 Table C.2).
#[derive(Debug, Clone, Copy, PartialEq, Eq, Structural)]
pub struct QeEntry {
    /// Size of the less probable sub-interval (`0x8000` stands for 0.75).
    pub qe: u16,
    /// Next row after a more probable symbol renormalises.
    pub nmps: u8,
    /// Next row after a less probable symbol.
    pub nlps: u8,
    /// Whether a less probable symbol flips the sense of the more probable one.
    pub switch: bool,
}

/// The `Qe` column of the probability table.
pub const QE_VALUE: [u16; 47] = [
    0x5601, 0x3401, 0x1801, 0x0AC1, 0x0521, 0x0221, 0x5601, 0x5401,
    0x4801, 0x3801, 0x3001, 0x2401, 0x1C01, 0x1601, 0x5601, 0x5401,
    0x5101, 0x4801, 0x3801, 0x3401, 0x3001, 0x2801, 0x2401, 0x2201,
    0x1C01, 0x1801, 0x1601, 0x1401, 0x1201, 0x1101, 0x0AC1, 0x09C1,
    0x08A1, 0x0521, 0x0441, 0x02A1, 0x0221, 0x0141, 0x0111, 0x0085,
    0x0049, 0x0025, 0x0015, 0x0009, 0x0005, 0x0001, 0x5601,
];

/// The `NMPS` column of the probability table.
pub const QE_NMPS: [u8; 47] = [
    1, 2, 3, 4, 5, 38, 7, 8, 9, 10, 11, 12, 13, 29, 15, 16,
    17, 18, 19, 20, 21, 22, 23, 24, 25, 26, 27, 28, 29, 30, 31, 32,
    33, 34, 35, 36, 37, 38, 39, 40, 41, 42, 43, 44, 45, 45, 46,
];

/// The `NLPS` column of the probability table.
pub const QE_NLPS: [u8; 47] = [
    1, 6, 9, 12, 29, 33, 6, 14, 14, 14, 17, 18, 20, 21, 14, 14,
    15, 16, 17, 18, 19, 19, 20, 21, 22, 23, 24, 25, 26, 27, 28, 29,
    30, 31, 32, 33, 34, 35, 36, 37, 38, 39, 40, 41, 42, 43, 46,
];

/// Row of the UNIFORM context, which never moves.
pub const UNIFORM_INDEX: u8 = 46;

/// Initial row of the run-length context.
pub const RUN_LENGTH_INDEX: u8 = 3;

/// Initial row of the context whose neighbours are all zero.
pub const ZERO_NEIGHBOURS_INDEX: u8 = 4;

/// Row `i` of the probability table; `SWITCH` is set in rows 0, 6 and 14 only.
#[verifier::opaque]
pub open spec fn qe_row(i: int) -> QeEntry {
    QeEntry {
        qe: QE_VALUE[i],
        nmps: QE_NMPS[i],
        nlps: QE_NLPS[i],
        switch: i == 0 || i == 6 || i == 14,
    }
}

/// Every row's `Qe` lies in `1..=0x5601` and its successors are rows again.
pub proof fn lemma_qe_row(i: int)
    requires
        0 <= i < 47,
    ensures
        1 <= qe_row(i).qe <= 0x5601,
        qe_row(i).nmps < 47,
        qe_row(i).nlps < 47,
{
    reveal(qe_row);
}

/// Row `index` of the probability table.
pub fn qe_entry(index: u8) -> (row: QeEntry)
    requires
        index < 47,
    ensures
        row == qe_row(index as int),
{
    reveal(qe_row);
    let i: usize = index as usize;
    QeEntry {
        qe: QE_VALUE[i],
        nmps: QE_NMPS[i],
        nlps: QE_NLPS[i],
        switch: index == 0 || index == 6 || index == 14,
    }
}

/// The whole probability table, row by row.
pub fn qe_table() -> (rows: Vec<QeEntry>)
    ensures
        rows@ == Seq::new(47, |i: int| qe_row(i)),
{
    let mut rows: Vec<QeEntry> = Vec::with_capacity(47);
    for i in 0..47u8
        invariant
            rows@ == Seq::new(i as nat, |k: int| qe_row(k)),
    {
        rows.push(qe_entry(i));
    }
    rows
}

/// What a context remembers: its row of the probability table and the current
/// sense of the more probable symbol.
pub struct ContextState {
    pub index: int,
    pub mps: bool,
}

impl ContextState {
    /// The row exists.
    pub open spec fn valid(self) -> bool {
        0 <= self.index < 47
    }

    /// The `Qe` of the context's row.
    pub open spec fn qe(self) -> int {
        qe_row(self.index).qe as int
    }

    /// The context after a more probable symbol that renormalised.
    pub open spec fn after_mps(self) -> ContextState {
        ContextState { index: qe_row(self.index).nmps as int, mps: self.mps }
    }

    /// The context after a less probable symbol.
    pub open spec fn after_lps(self) -> ContextState {
        let row = qe_row(self.index);
        ContextState {
            index: row.nlps as int,
            mps: if row.switch { !self.mps } else { self.mps },
        }
    }
}

/// The UNIFORM context never moves: after either symbol it is what it was.
pub proof fn law_uniform_stays(mps: bool)
    ensures
        ({
            let cx = ContextState { index: 46, mps };
            cx.after_mps() == cx && cx.after_lps() == cx
        }),
{
    reveal(qe_row);
}

/// A context that has a row of the table keeps having one.
pub proof fn law_context_stays_valid(cx: ContextState)
    requires
        cx.valid(),
    ensures
        cx.after_mps().valid(),
        cx.after_lps().valid(),
{
    lemma_qe_row(cx.index);
}

/// Adaptive state of one context.
///
/// The constructors give the initial states of T.800 Table D.7.
#[derive(Debug, Clone, Copy, PartialEq, Eq, Structural)]
pub struct MqContext {
    index: u8,
    mps: bool,
}

impl View for MqContext {
    type V = ContextState;

    closed spec fn view(&self) -> ContextState {
        ContextState { index: self.index as int, mps: self.mps }
    }
}

impl Default for MqContext {
    /// Row 0, more probable symbol 0.
    fn default() -> (cx: Self)
        ensures
            cx@ == (ContextState { index: 0, mps: false }),
    {
        MqContext { index: 0, mps: false }
    }
}

impl MqContext {
    /// The row exists.
    #[verifier::type_invariant]
    spec fn in_table(self) -> bool {
        self.index < 47
    }

    /// The UNIFORM context: row 46, more probable symbol 0.
    pub fn uniform() -> (cx: Self)
        ensures
            cx@ == (ContextState { index: 46, mps: false }),
    {
        MqContext { index: UNIFORM_INDEX, mps: false }
    }

    /// The run-length context: row 3, more probable symbol 0.
    pub fn run_length() -> (cx: Self)
        ensures
            cx@ == (ContextState { index: 3, mps: false }),
    {
        MqContext { index: RUN_LENGTH_INDEX, mps: false }
    }

    /// The all-zero-neighbours context: row 4, more probable symbol 0.
    pub fn zero_neighbours() -> (cx: Self)
        ensures
            cx@ == (ContextState { index: 4, mps: false }),
    {
        MqContext { index: ZERO_NEIGHBOURS_INDEX, mps: false }
    }

    /// The current row of the probability table.
    pub fn index(&self) -> (i: u8)
        ensures
            i == self@.index,
            self@.valid(),
    {
        proof {
            use_type_invariant(self);
        }
        self.index
    }

    /// The current sense of the more probable symbol.
    pub fn mps(&self) -> (m: bool)
        ensures
            m == self@.mps,
    {
        self.mps
    }

    /// Puts the context back into the state `initial`.
    pub fn reset_to(&mut self, initial: MqContext)
        ensures
            *final(self) == initial,
            final(self)@ == initial@,
    {
        *self = initial;
    }

    /// Moves on after a more probable symbol that renormalised.
    pub(crate) fn adapt_mps(&mut self)
        ensures
            final(self)@ == old(self)@.after_mps(),
    {
        proof {
            use_type_invariant(&*self);
            lemma_qe_row(self.index as int);
        }
        let row = qe_entry(self.index);
        self.index = row.nmps;
    }

    /// Moves on after a less probable symbol.
    pub(crate) fn adapt_lps(&mut self)
        ensures
            final(self)@ == old(self)@.after_lps(),
    {
        proof {
            use_type_invariant(&*self);
            lemma_qe_row(self.index as int);
        }
        let row = qe_entry(self.index);
        if row.switch {
            self.mps = !self.mps;
        }
        self.index = row.nlps;
    }
}

/// The decoder's registers: byte pointer, interval, code register (32 bits wide:
/// its high half is compared with `Qe`, its low half holds bits read ahead) and
/// bit counter.
pub struct DecoderState {
    pub bp: int,
    pub a: int,
    pub c: int,
    pub ct: int,
}

/// Byte `i` of the compressed data; past the end the data reads as `0xFF`.
pub open spec fn data_byte(data: Seq<u8>, i: int) -> int {
    if 0 <= i < data.len() {
        data[i] as int
    } else {
        0xFF
    }
}

/// BYTEIN: takes the next byte into the code register. A byte after `0xFF`
/// carries seven bits, its top bit being added to what was read before it; a byte
/// above `0x8F` there, or the end of the data, is a marker, which stays unread
/// while ones are fed in its place.
pub open spec fn read_byte(data: Seq<u8>, s: DecoderState) -> DecoderState {
    if data_byte(data, s.bp) == 0xFF {
        let next = data_byte(data, s.bp + 1);
        if next > 0x8F {
            DecoderState { c: (s.c + 0xFF00) % 0x1_0000_0000, ct: 8, ..s }
        } else {
            DecoderState { bp: s.bp + 1, c: (s.c + next * 512) % 0x1_0000_0000, ct: 7, ..s }
        }
    } else {
        let next = data_byte(data, s.bp + 1);
        DecoderState { bp: s.bp + 1, c: (s.c + next * 256) % 0x1_0000_0000, ct: 8, ..s }
    }
}

/// One renormalisation shift, reading a byte first when none of it is left.
pub open spec fn decoder_shift(data: Seq<u8>, s: DecoderState) -> DecoderState {
    let t = if s.ct == 0 { read_byte(data, s) } else { s };
    DecoderState { a: t.a * 2, c: (t.c * 2) % 0x1_0000_0000, ct: t.ct - 1, ..t }
}

/// RENORMD: shifts, at least once, until the interval is at least `0x8000`.
pub open spec fn decoder_renorm(data: Seq<u8>, s: DecoderState) -> DecoderState
    decreases 0x1_0000 - s.a,
{
    if s.a <= 0 || s.a >= 0x8000 {
        s
    } else {
        decoder_renorm(data, decoder_shift(data, s))
    }
}

/// INITDEC: the registers of a fresh decoder over `data`.
pub open spec fn init_decoder(data: Seq<u8>) -> DecoderState {
    let s = read_byte(
        data,
        DecoderState { bp: 0, a: 0x8000, c: data_byte(data, 0) * 0x1_0000, ct: 0 },
    );
    DecoderState { c: (s.c * 128) % 0x1_0000_0000, ct: s.ct - 7, ..s }
}

/// DECODE: the registers, the context and the decision after one symbol.
///
/// The interval is split at `Qe`. A code register below the split selects the
/// lower part, of size `Qe`; otherwise the upper part remains. The smaller part
/// stands for the less probable symbol.
pub open spec fn decode_symbol(data: Seq<u8>, s: DecoderState, cx: ContextState) -> (
    DecoderState,
    ContextState,
    bool,
) {
    let rest = s.a - cx.qe();
    if s.c / 0x1_0000 < cx.qe() {
        let t = decoder_renorm(data, DecoderState { a: cx.qe(), ..s });
        if rest < cx.qe() {
            (t, cx.after_mps(), cx.mps)
        } else {
            (t, cx.after_lps(), !cx.mps)
        }
    } else {
        let t = DecoderState { a: rest, c: s.c - cx.qe() * 0x1_0000, ..s };
        if rest >= 0x8000 {
            (t, cx, cx.mps)
        } else if rest < cx.qe() {
            (decoder_renorm(data, t), cx.after_lps(), !cx.mps)
        } else {
            (decoder_renorm(data, t), cx.after_mps(), cx.mps)
        }
    }
}

/// The MQ arithmetic decoder over a slice of compressed bytes.
#[derive(Debug, Clone)]
pub struct MqDecoder<'a> {
    data: &'a [u8],
    bp: usize,
    a: u32,
    c: u32,
    ct: i32,
}

impl<'a> View for MqDecoder<'a> {
    type V = DecoderState;

    closed spec fn view(&self) -> DecoderState {
        DecoderState {
            bp: self.bp as int,
            a: self.a as int,
            c: self.c as int,
            ct: self.ct as int,
        }
    }
}

impl<'a> MqDecoder<'a> {
    /// The compressed bytes.
    pub closed spec fn data(&self) -> Seq<u8> {
        self.data@
    }

    /// Between calls the interval is normalised, at most eight bits are read
    /// ahead and the byte pointer is at most one past the last byte.
    pub open spec fn wf(&self) -> bool {
        &&& 0x8000 <= self@.a < 0x1_0000
        &&& 0 <= self@.ct <= 8
        &&& self@.bp <= self.data().len()
    }

    /// Opens a decoder over `data`.
    ///
    /// An empty slice opens in the end-of-data state: decoding goes on with ones.
    pub fn new(data: &'a [u8]) -> (d: Self)
        ensures
            d.data() == data@,
            d@ == init_decoder(data@),
            d.wf(),
    {
        let first: u8 = if data.len() > 0 { data[0] } else { 0xFF };
        let mut d = MqDecoder { data, bp: 0, a: 0x8000, c: first as u32 * 0x1_0000, ct: 0 };
        d.bytein();
        d.c = d.c.wrapping_mul(128);
        d.ct = d.ct - 7;
        d
    }

    /// The byte at `i`, `0xFF` past the end.
    fn byte_at(&self, i: usize) -> (b: u8)
        ensures
            b == data_byte(self.data(), i as int),
    {
        if i < self.data.len() {
            self.data[i]
        } else {
            0xFF
        }
    }

    /// BYTEIN (T.800 §C.3.4).
    fn bytein(&mut self)
        requires
            old(self)@.bp <= old(self).data().len(),
        ensures
            final(self).data() == old(self).data(),
            final(self)@ == read_byte(old(self).data(), old(self)@),
            final(self)@.bp <= final(self).data().len(),
    {
        let b: u8 = self.byte_at(self.bp);
        let next: u8 = if self.bp < self.data.len() { self.byte_at(self.bp + 1) } else { 0xFF };
        if b == 0xFF {
            if next > 0x8F {
                self.c = self.c.wrapping_add(0xFF00);
                self.ct = 8;
            } else {
                self.bp = self.bp + 1;
                self.c = self.c.wrapping_add(next as u32 * 512);
                self.ct = 7;
            }
        } else {
            self.bp = self.bp + 1;
            self.c = self.c.wrapping_add(next as u32 * 256);
            self.ct = 8;
        }
    }

    /// RENORMD (T.800 §C.3.3).
    fn renormd(&mut self)
        requires
            0 < old(self)@.a < 0x8000,
            0 <= old(self)@.ct <= 8,
            old(self)@.bp <= old(self).data().len(),
        ensures
            final(self).data() == old(self).data(),
            final(self)@ == decoder_renorm(old(self).data(), old(self)@),
            final(self).wf(),
    {
        let ghost data = self.data@;
        while self.a < 0x8000
            invariant
                self.data@ == data,
                0 < self.a < 0x1_0000,
                0 <= self.ct <= 8,
                self.bp <= self.data@.len(),
                decoder_renorm(data, self@) == decoder_renorm(old(self).data(), old(self)@),
            decreases 0x1_0000 - self.a,
        {
            if self.ct == 0 {
                self.bytein();
            }
            self.a = self.a * 2;
            self.c = self.c.wrapping_mul(2);
            self.ct = self.ct - 1;
        }
    }

    /// Decodes one decision against the context `cx`.
    pub fn decode(&mut self, cx: &mut MqContext) -> (d: u8)
        requires
            old(self).wf(),
        ensures
            final(self).wf(),
            final(self).data() == old(self).data(),
            (final(self)@, final(cx)@, d == 1) == decode_symbol(
                old(self).data(),
                old(self)@,
                old(cx)@,
            ),
            d == 0 || d == 1,
    {
        proof {
            use_type_invariant(&*cx);
            lemma_qe_row(cx@.index);
        }
        let qe: u32 = qe_entry(cx.index).qe as u32;
        let rest: u32 = self.a - qe;
        if self.c / 0x1_0000 < qe {
            let d: u8 = self.exchange(cx, rest >= qe);
            self.a = qe;
            self.renormd();
            d
        } else {
            self.c = self.c - qe * 0x1_0000;
            self.a = rest;
            if rest < 0x8000 {
                let d: u8 = self.exchange(cx, rest < qe);
                self.renormd();
                d
            } else if cx.mps {
                1
            } else {
                0
            }
        }
    }

    /// Adapts `cx` and gives the decision, for a less probable symbol or a more
    /// probable one.
    fn exchange(&self, cx: &mut MqContext, less_probable: bool) -> (d: u8)
        ensures
            final(cx)@ == (if less_probable { old(cx)@.after_lps() } else { old(cx)@.after_mps() }),
            d == 0 || d == 1,
            (d == 1) == (old(cx)@.mps != less_probable),
    {
        let d: u8 = if cx.mps != less_probable { 1 } else { 0 };
        if less_probable {
            cx.adapt_lps();
        } else {
            cx.adapt_mps();
        }
        d
    }

    /// The interval, the code register and the bit counter.
    pub fn registers(&self) -> (r: (u32, u32, i32))
        ensures
            r.0 == self@.a,
            r.1 == self@.c,
            r.2 == self@.ct,
    {
        (self.a, self.c, self.ct)
    }

    /// The byte pointer: how far into the data the decoder has read.
    pub fn byte_pointer(&self) -> (bp: usize)
        ensures
            bp == self@.bp,
    {
        self.bp
    }
}

} // verus!
