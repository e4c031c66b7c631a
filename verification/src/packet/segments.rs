//! Coding-pass counts, codeword segments and their lengths (T.800 §B.10.6,
//! §B.10.7 and §D.6; T.814 §B.1 to §B.3).
use vstd::arithmetic::power2::{lemma2_to64, lemma_pow2_pos, lemma_pow2_unfold, pow2};
use vstd::prelude::*;

use crate::packet::bits::{
    bits_of, bits_value, lemma_bits_value_bound, lemma_bits_value_of, parse_bits, PacketBitReader,
    PacketBitWriter,
};
use crate::power::lemma_pow2_fits;
use crate::Error;

verus! {

/// The result of reading past the end: an error, and nothing left.
pub open spec fn end_of_bits<T>() -> (Result<T, Error>, Seq<bool>) {
    (Err(Error::UnexpectedEof), Seq::empty())
}

/// Reads a number of coding passes (T.800 Table B.4).
pub open spec fn parse_passes(bits: Seq<bool>) -> (Result<u32, Error>, Seq<bool>) {
    if bits.len() < 1 {
        end_of_bits()
    } else if !bits[0] {
        (Ok(1), bits.skip(1))
    } else if bits.len() < 2 {
        end_of_bits()
    } else if !bits[1] {
        (Ok(2), bits.skip(2))
    } else if bits.len() < 4 {
        end_of_bits()
    } else if !(bits[2] && bits[3]) {
        (Ok((3 + bits_value(bits.subrange(2, 4))) as u32), bits.skip(4))
    } else if bits.len() < 9 {
        end_of_bits()
    } else if bits_value(bits.subrange(4, 9)) < 31 {
        (Ok((6 + bits_value(bits.subrange(4, 9))) as u32), bits.skip(9))
    } else if bits.len() < 16 {
        end_of_bits()
    } else {
        (Ok((37 + bits_value(bits.subrange(9, 16))) as u32), bits.skip(16))
    }
}

/// The codeword for a number of coding passes (T.800 Table B.4).
pub open spec fn passes_codeword(passes: nat) -> Seq<bool> {
    if passes == 1 {
        seq![false]
    } else if passes == 2 {
        bits_of(0b10, 2)
    } else if passes <= 5 {
        bits_of((0b1100 + passes - 3) as nat, 4)
    } else if passes <= 36 {
        bits_of(0b1111, 4) + bits_of((passes - 6) as nat, 5)
    } else {
        bits_of(0b1111, 4) + bits_of(31, 5) + bits_of((passes - 37) as nat, 7)
    }
}

/// The integer part of the binary logarithm; 0 for 0.
pub open spec fn floor_log2(n: nat) -> nat
    decreases n,
{
    if n <= 1 {
        0
    } else {
        1 + floor_log2(n / 2)
    }
}

/// How many bits a length takes that covers `passes` coding passes: none or more
/// than 32 is an error.
pub open spec fn length_width(lblock: u32, passes: u32) -> Result<u8, Error> {
    let n = lblock + floor_log2(passes as nat);
    if n == 0 || n > 32 {
        Err(Error::InvalidPacketHeader)
    } else {
        Ok(n as u8)
    }
}

/// How many ones `bits` starts with.
pub open spec fn leading_ones(bits: Seq<bool>) -> nat
    decreases bits.len(),
{
    if bits.len() > 0 && bits[0] {
        1 + leading_ones(bits.skip(1))
    } else {
        0
    }
}

/// Reads an increase of `lblock`: as many ones, at most 32, and a zero.
pub open spec fn parse_lblock(lblock: u32, bits: Seq<bool>) -> (Result<u32, Error>, Seq<bool>) {
    let k = leading_ones(bits);
    if k > 32 {
        (Err(Error::InvalidPacketHeader), bits.skip(33))
    } else if k == bits.len() {
        end_of_bits()
    } else if lblock + k > u32::MAX {
        (Err(Error::InvalidPacketHeader), bits.skip((k + 1) as int))
    } else {
        (Ok((lblock + k) as u32), bits.skip((k + 1) as int))
    }
}

/// Reads the length of a segment of `passes` coding passes.
pub open spec fn parse_length(lblock: u32, passes: u32, bits: Seq<bool>) -> (
    Result<u32, Error>,
    Seq<bool>,
) {
    match length_width(lblock, passes) {
        Ok(n) => parse_bits(bits, n as nat),
        Err(e) => (Err(e), bits),
    }
}

/// Reads the lengths of segments of `spans` coding passes each.
pub open spec fn parse_lengths(lblock: u32, spans: Seq<u32>, bits: Seq<bool>) -> (
    Result<Seq<u32>, Error>,
    Seq<bool>,
)
    decreases spans.len(),
{
    if spans.len() == 0 {
        (Ok(Seq::empty()), bits)
    } else {
        match parse_length(lblock, spans[0], bits) {
            (Err(e), rest) => (Err(e), rest),
            (Ok(len), rest) => match parse_lengths(lblock, spans.skip(1), rest) {
                (Err(e), last) => (Err(e), last),
                (Ok(lens), last) => (Ok(seq![len] + lens), last),
            },
        }
    }
}

/// How many bits it takes to write `n` down, at least one.
pub open spec fn bits_needed(n: nat) -> nat {
    floor_log2(n) + 1
}

/// The least increase of `lblock` with which every length of `segments` (pass count
/// and length) fits.
pub open spec fn lblock_growth(lblock: nat, segments: Seq<(u32, u32)>) -> nat
    decreases segments.len(),
{
    if segments.len() == 0 {
        0
    } else {
        let (p, len) = segments.last();
        let k = lblock_growth(lblock, segments.drop_last());
        let short = bits_needed(len as nat) - lblock - floor_log2(p as nat);
        if short > k {
            short as nat
        } else {
            k
        }
    }
}

/// `n` ones.
pub open spec fn one_bits(n: nat) -> Seq<bool> {
    Seq::new(n, |i: int| true)
}

/// The length fields of `segments` under `lblock`.
pub open spec fn length_fields(lblock: nat, segments: Seq<(u32, u32)>) -> Seq<bool>
    decreases segments.len(),
{
    if segments.len() == 0 {
        Seq::empty()
    } else {
        let (p, len) = segments.last();
        length_fields(lblock, segments.drop_last()) + bits_of(
            len as nat,
            lblock + floor_log2(p as nat),
        )
    }
}

/// The increase of `lblock`, then the length fields.
pub open spec fn written_lengths(lblock: nat, segments: Seq<(u32, u32)>) -> Seq<bool> {
    let k = lblock_growth(lblock, segments);
    one_bits(k).push(false) + length_fields(lblock + k, segments)
}

/// Every length field is at most 32 bits wide once `lblock` has grown.
pub open spec fn lengths_fit(lblock: nat, segments: Seq<(u32, u32)>) -> bool {
    forall|i: int|
        0 <= i < segments.len() ==> lblock + lblock_growth(lblock, segments) + floor_log2(
            (#[trigger] segments[i]).0 as nat,
        ) <= 32
}

/// What a coding pass does (T.800 §D.3).
#[derive(Debug, Clone, Copy, PartialEq, Eq, Structural)]
pub enum PassRole {
    /// Significance propagation.
    Sp,
    /// Magnitude refinement.
    Mr,
    /// Cleanup.
    Cleanup,
}

/// The role of pass `i`: a cleanup first, then the three in turn.
pub open spec fn role_of(i: int) -> PassRole {
    if i % 3 == 0 {
        PassRole::Cleanup
    } else if i % 3 == 1 {
        PassRole::Sp
    } else {
        PassRole::Mr
    }
}

/// Where the passes of a contribution are cut into codeword segments. The last pass
/// of the contribution always ends one.
pub enum Boundary {
    /// Nowhere else.
    Last,
    /// After every pass.
    Every,
    /// Selective bypass (T.800 Table D.9): after pass 9, then after each refinement
    /// and cleanup pass; after every pass if `every`.
    Bypass { every: bool },
    /// High throughput (T.814 §B.2) after `p0` placeholder passes: after each cleanup
    /// pass and each pair of refining passes.
    Ht { p0: int },
}

impl Boundary {
    /// Whether a segment ends after pass `i`.
    pub open spec fn ends(self, i: int) -> bool {
        match self {
            Boundary::Last => false,
            Boundary::Every => true,
            Boundary::Bypass { every } => every || i == 9 || (i >= 10 && role_of(i)
                != PassRole::Sp),
            Boundary::Ht { p0 } => i >= p0 && (i - p0) % 3 != 1,
        }
    }

    /// The segments of the passes from `i` up to `end`, each with its first pass and
    /// its number of passes; the segment that is open began at `first`.
    pub open spec fn segments(self, first: int, i: int, end: int) -> Seq<(int, int)>
        decreases end - i,
    {
        if i >= end {
            Seq::empty()
        } else if self.ends(i) || i + 1 == end {
            seq![(first, i + 1 - first)] + self.segments(i + 1, i + 1, end)
        } else {
            self.segments(first, i + 1, end)
        }
    }

    /// The numbers of passes of the segments of `passes` passes from `start` on.
    pub open spec fn spans(self, start: int, passes: int) -> Seq<u32> {
        let s = self.segments(start, start, start + passes);
        Seq::new(s.len(), |k: int| s[k].1 as u32)
    }
}

/// Whether pass `i` is coded raw under selective bypass.
pub open spec fn is_raw(i: int) -> bool {
    i >= 10 && role_of(i) != PassRole::Cleanup
}

/// The only pass of `passes` passes from `start` on that can be the first cleanup
/// pass of a high-throughput block: the last multiple of three.
pub open spec fn cleanup_candidate(start: int, passes: int) -> Option<u32> {
    let c = (start + passes - 1) / 3 * 3;
    if passes > 0 && c >= start {
        Some(c as u32)
    } else {
        None
    }
}

/// What reading the first lengths of a high-throughput block gives: the lengths, the
/// number of placeholder passes if it is settled, and the bits that are left.
pub struct HtRead {
    pub lengths: Result<Seq<u32>, Error>,
    pub placeholders: Option<u32>,
    pub rest: Seq<bool>,
}

/// Reads the lengths of a contribution to a high-throughput block whose cleanup pass
/// has not been seen (T.814 §B.3).
///
/// The field is read as wide as the candidate's segment. Two or more is the length of
/// the first cleanup segment, after which the remaining passes have one segment. Zero
/// is a run of placeholders; the field is then as wide as all passes take, its
/// remaining bits being zero. One is an error, and so is anything but zero where
/// there is no candidate.
pub open spec fn parse_ht_first(lblock: u32, start: int, passes: int, bits: Seq<bool>) -> HtRead {
    match cleanup_candidate(start, passes) {
        None => match parse_length(lblock, passes as u32, bits) {
            (Err(e), rest) => HtRead { lengths: Err(e), placeholders: None, rest },
            (Ok(len), rest) => HtRead {
                lengths: if len == 0 { Ok(seq![0u32]) } else { Err(Error::InvalidPacketHeader) },
                placeholders: None,
                rest,
            },
        },
        Some(c) => {
            let left = start + passes - 1 - c;
            match parse_length(lblock, (c - start + 1) as u32, bits) {
                (Err(e), rest) => HtRead { lengths: Err(e), placeholders: None, rest },
                (Ok(len), rest) => if len >= 2 {
                    if left == 0 {
                        HtRead { lengths: Ok(seq![len]), placeholders: Some(c), rest }
                    } else {
                        match parse_length(lblock, left as u32, rest) {
                            (Err(e), last) => HtRead {
                                lengths: Err(e),
                                placeholders: Some(c),
                                rest: last,
                            },
                            (Ok(more), last) => HtRead {
                                lengths: Ok(seq![len, more]),
                                placeholders: Some(c),
                                rest: last,
                            },
                        }
                    }
                } else if len == 1 {
                    HtRead {
                        lengths: Err(Error::InvalidPacketHeader),
                        placeholders: None,
                        rest,
                    }
                } else {
                    match length_width(lblock, passes as u32) {
                        Err(e) => HtRead { lengths: Err(e), placeholders: None, rest },
                        Ok(wide) => {
                            let narrow = length_width(lblock, (c - start + 1) as u32)->Ok_0;
                            match parse_bits(rest, (wide - narrow) as nat) {
                                (Err(e), last) => HtRead {
                                    lengths: Err(e),
                                    placeholders: None,
                                    rest: last,
                                },
                                (Ok(pad), last) => HtRead {
                                    lengths: if pad == 0 {
                                        Ok(seq![0u32])
                                    } else {
                                        Err(Error::InvalidPacketHeader)
                                    },
                                    placeholders: None,
                                    rest: last,
                                },
                            }
                        },
                    }
                },
            }
        },
    }
}

/// Two bits that are not both set spell less than three.
pub(crate) proof fn lemma_two_bits(s: Seq<bool>)
    requires
        s.len() == 2,
    ensures
        bits_value(s) == (if s[0] { 2nat } else { 0 }) + (if s[1] { 1nat } else { 0 }),
{
    reveal_with_fuel(bits_value, 3);
    assert(s.drop_last().drop_last() =~= Seq::<bool>::empty());
}

/// Reads a number of coding passes (T.800 Table B.4).
pub fn decode_coding_passes(reader: &mut PacketBitReader<'_>) -> (r: Result<u32, Error>)
    requires
        old(reader).wf(),
    ensures
        final(reader).wf(),
        final(reader).bytes() == old(reader).bytes(),
        (r, final(reader)@) == parse_passes(old(reader)@),
{
    let ghost all = reader@;
    let b0: u8 = match reader.read_bit() {
        Ok(b) => b,
        Err(e) => {
            assert(reader@ =~= Seq::<bool>::empty());
            return Err(e);
        },
    };
    if b0 == 0 {
        return Ok(1);
    }
    let b1: u8 = match reader.read_bit() {
        Ok(b) => b,
        Err(e) => {
            assert(reader@ =~= Seq::<bool>::empty());
            return Err(e);
        },
    };
    assert(reader@ =~= all.skip(2));
    if b1 == 0 {
        return Ok(2);
    }
    let b2: u8 = match reader.read_bit() {
        Ok(b) => b,
        Err(e) => {
            assert(reader@ =~= Seq::<bool>::empty());
            return Err(e);
        },
    };
    assert(reader@ =~= all.skip(3));
    let b3: u8 = match reader.read_bit() {
        Ok(b) => b,
        Err(e) => {
            assert(reader@ =~= Seq::<bool>::empty());
            return Err(e);
        },
    };
    assert(reader@ =~= all.skip(4));
    proof {
        lemma_two_bits(all.subrange(2, 4));
    }
    if b2 == 0 || b3 == 0 {
        return Ok(3 + 2 * b2 as u32 + b3 as u32);
    }
    let a: u32 = match reader.read_bits(5) {
        Ok(a) => a,
        Err(e) => {
            return Err(e);
        },
    };
    proof {
        assert(all.skip(4).take(5) =~= all.subrange(4, 9));
        assert(all.skip(4).skip(5) =~= all.skip(9));
        lemma_value_below(all.subrange(4, 9), 5);
        lemma2_to64();
    }
    if a < 31 {
        return Ok(6 + a);
    }
    let b: u32 = match reader.read_bits(7) {
        Ok(b) => b,
        Err(e) => {
            return Err(e);
        },
    };
    proof {
        assert(all.skip(9).take(7) =~= all.subrange(9, 16));
        assert(all.skip(9).skip(7) =~= all.skip(16));
        lemma_value_below(all.subrange(9, 16), 7);
    }
    Ok(37 + b)
}

/// `n` bits spell less than `2^n`.
proof fn lemma_value_below(s: Seq<bool>, n: nat)
    requires
        s.len() == n,
    ensures
        bits_value(s) < pow2(n),
{
    lemma_bits_value_bound(s);
}

/// Writes the codeword for `passes` coding passes.
pub fn encode_coding_passes(passes: u32, writer: &mut PacketBitWriter)
    requires
        old(writer).wf(),
        1 <= passes <= 164,
    ensures
        final(writer).wf(),
        final(writer)@ == old(writer)@ + passes_codeword(passes as nat),
{
    if passes == 1 {
        writer.write_bit(0);
        assert(writer@ =~= old(writer)@ + seq![false]);
    } else if passes == 2 {
        writer.write_bits(0b10, 2);
    } else if passes <= 5 {
        writer.write_bits(0b1100 + passes - 3, 4);
    } else {
        writer.write_bits(0b1111, 4);
        if passes <= 36 {
            writer.write_bits(passes - 6, 5);
        } else {
            writer.write_bits(31, 5);
            writer.write_bits(passes - 37, 7);
        }
        assert(writer@ =~= old(writer)@ + passes_codeword(passes as nat));
    }
}

/// The bits of a field come back.
proof fn lemma_field(v: nat, n: nat, head: Seq<bool>, rest: Seq<bool>)
    requires
        v < pow2(n),
    ensures
        bits_value((head + bits_of(v, n) + rest).subrange(head.len() as int, (head.len() + n) as int))
            == v,
        (head + bits_of(v, n) + rest).skip((head.len() + n) as int) == rest,
{
    let all = head + bits_of(v, n) + rest;
    assert(all.subrange(head.len() as int, (head.len() + n) as int) =~= bits_of(v, n));
    assert(all.skip((head.len() + n) as int) =~= rest);
    lemma_bits_value_of(v, n);
}

/// Reading a codeword of Table B.4 gives back the number that was written, and reads
/// no bit more.
pub proof fn law_coding_passes_round_trip(passes: u32, rest: Seq<bool>)
    requires
        1 <= passes <= 164,
    ensures
        parse_passes(passes_codeword(passes as nat) + rest) == (Ok::<u32, Error>(passes), rest),
{
    lemma2_to64();
    let bits = passes_codeword(passes as nat) + rest;
    if passes == 1 {
        assert(bits.skip(1) =~= rest);
    } else if passes == 2 {
        let v = 0b10nat;
        assert(bits[0] == (v / 2 % 2 == 1) && bits[1] == (v / 1 % 2 == 1));
        assert(bits.skip(2) =~= rest);
    } else if passes <= 5 {
        let v = (0b1100 + passes - 3) as nat;
        assert(bits[0] == (v / 8 % 2 == 1) && bits[1] == (v / 4 % 2 == 1));
        assert(bits[2] == (v / 2 % 2 == 1) && bits[3] == (v / 1 % 2 == 1));
        lemma_two_bits(bits.subrange(2, 4));
        assert(bits.skip(4) =~= rest);
    } else {
        let head = bits_of(0b1111, 4);
        let ones = 0b1111nat;
        assert(head[0] == (ones / 8 % 2 == 1) && head[1] == (ones / 4 % 2 == 1));
        assert(head[2] == (ones / 2 % 2 == 1) && head[3] == (ones / 1 % 2 == 1));
        if passes <= 36 {
            let v = (passes - 6) as nat;
            assert(bits =~= head + bits_of(v, 5) + rest);
            lemma_field(v, 5, head, rest);
        } else {
            let v = (passes - 37) as nat;
            let two = head + bits_of(31, 5);
            assert(bits =~= head + bits_of(31, 5) + (bits_of(v, 7) + rest));
            lemma_field(31, 5, head, bits_of(v, 7) + rest);
            assert(bits =~= two + bits_of(v, 7) + rest);
            lemma_field(v, 7, two, rest);
        }
    }
}

/// What is carried per code-block from packet to packet: how wide its lengths are.
#[derive(Debug, Clone, Copy, PartialEq, Eq, Structural)]
pub struct LblockState {
    /// The current `Lblock`.
    pub lblock: u32,
}

impl Default for LblockState {
    /// `Lblock` starts at 3.
    fn default() -> (s: Self)
        ensures
            s.lblock == 3,
    {
        LblockState { lblock: 3 }
    }
}

/// Runs of ones, one bit later.
proof fn lemma_leading_ones_skip(bits: Seq<bool>, k: nat)
    requires
        k <= bits.len(),
        forall|i: int| 0 <= i < k ==> bits[i],
    ensures
        leading_ones(bits) == k + leading_ones(bits.skip(k as int)),
    decreases k,
{
    if k == 0 {
        assert(bits.skip(0) =~= bits);
    } else {
        lemma_leading_ones_skip(bits.skip(1), (k - 1) as nat);
        assert(bits.skip(1).skip(k - 1) =~= bits.skip(k as int));
    }
}

/// Reads an increase of `Lblock` (T.800 §B.10.7.1).
pub(crate) fn read_lblock_increment(
    state: &mut LblockState,
    reader: &mut PacketBitReader<'_>,
) -> (r: Result<(), Error>)
    requires
        old(reader).wf(),
    ensures
        final(reader).wf(),
        final(reader).bytes() == old(reader).bytes(),
        final(reader)@ == parse_lblock(old(state).lblock, old(reader)@).1,
        match parse_lblock(old(state).lblock, old(reader)@).0 {
            Ok(l) => r is Ok && final(state).lblock == l,
            Err(e) => r == Err::<(), Error>(e) && *final(state) == *old(state),
        },
{
    let ghost all = reader@;
    let mut k: u32 = 0;
    assert(all.skip(0) =~= all);
    loop
        invariant
            reader.wf(),
            reader.bytes() == old(reader).bytes(),
            all == old(reader)@,
            *state == *old(state),
            k <= 32,
            k <= all.len(),
            reader@ == all.skip(k as int),
            forall|i: int| 0 <= i < k ==> all[i],
        decreases 32 - k,
    {
        proof {
            lemma_leading_ones_skip(all, k as nat);
        }
        match reader.read_bit() {
            Ok(bit) => {
                assert(all.skip(k as int).skip(1) =~= all.skip(k + 1));
                if bit == 0 {
                    assert(leading_ones(all) == k);
                    match state.lblock.checked_add(k) {
                        Some(l) => {
                            state.lblock = l;
                            return Ok(());
                        },
                        None => {
                            return Err(Error::InvalidPacketHeader);
                        },
                    }
                }
                if k == 32 {
                    return Err(Error::InvalidPacketHeader);
                }
                k = k + 1;
            },
            Err(e) => {
                assert(reader@ =~= Seq::<bool>::empty());
                return Err(e);
            },
        }
    }
}

/// The integer part of the binary logarithm; 0 for 0.
fn log2_floor(n: u32) -> (k: u32)
    ensures
        k == floor_log2(n as nat),
        k < 32,
{
    let mut m: u32 = n;
    let mut k: u32 = 0;
    proof {
        lemma2_to64();
    }
    while m > 1
        invariant
            k + floor_log2(m as nat) == floor_log2(n as nat),
            m >= 1 ==> m * pow2(k as nat) <= n,
            k <= 32,
            m == 0 ==> k == 0,
        decreases m,
    {
        let ghost h = m / 2;
        proof {
            lemma_pow2_unfold(k as nat + 1);
            lemma_pow2_pos(k as nat);
            assert(h * pow2(k as nat + 1) <= m * pow2(k as nat)) by (nonlinear_arith)
                requires
                    2 * h <= m,
                    pow2(k as nat + 1) == 2 * pow2(k as nat),
                    pow2(k as nat) > 0,
            ;
            lemma_exponent_small(h as nat, k as nat + 1, n as nat);
        }
        m = m / 2;
        k = k + 1;
    }
    proof {
        if m == 1 {
            lemma_exponent_small(1, k as nat, n as nat);
        }
    }
    k
}

/// A power of two below `2^32` has an exponent below 32.
proof fn lemma_exponent_small(m: nat, k: nat, n: nat)
    requires
        m >= 1,
        m * pow2(k) <= n,
        n < 0x1_0000_0000,
    ensures
        k < 32,
{
    lemma2_to64();
    lemma_pow2_pos(k);
    assert(pow2(k) <= m * pow2(k)) by (nonlinear_arith)
        requires
            m >= 1,
            pow2(k) > 0,
    ;
    if k > 32 {
        vstd::arithmetic::power2::lemma_pow2_strictly_increases(32, k);
    }
}

/// How many bits a length takes that covers `passes_in_segment` coding passes.
pub(crate) fn segment_length_width(lblock: u32, passes_in_segment: u32) -> (r: Result<u8, Error>)
    ensures
        r == length_width(lblock, passes_in_segment),
{
    let extra: u32 = log2_floor(passes_in_segment);
    if lblock > 32 || lblock + extra == 0 || lblock + extra > 32 {
        return Err(Error::InvalidPacketHeader);
    }
    Ok((lblock + extra) as u8)
}

/// Reads the length of a segment of `passes_in_segment` coding passes.
pub(crate) fn read_segment_length_value(
    lblock: u32,
    passes_in_segment: u32,
    reader: &mut PacketBitReader<'_>,
) -> (r: Result<u32, Error>)
    requires
        old(reader).wf(),
    ensures
        final(reader).wf(),
        final(reader).bytes() == old(reader).bytes(),
        (r, final(reader)@) == parse_length(lblock, passes_in_segment, old(reader)@),
{
    match segment_length_width(lblock, passes_in_segment) {
        Ok(n) => reader.read_bits(n),
        Err(e) => Err(e),
    }
}

/// Reads an increase of `Lblock` and then one length (T.800 §B.10.7.1).
pub fn decode_segment_length(
    state: &mut LblockState,
    passes_in_segment: u32,
    reader: &mut PacketBitReader<'_>,
) -> (r: Result<u32, Error>)
    requires
        old(reader).wf(),
    ensures
        final(reader).wf(),
        final(reader).bytes() == old(reader).bytes(),
        ({
            let (grown, rest) = parse_lblock(old(state).lblock, old(reader)@);
            match grown {
                Err(e) => {
                    &&& r == Err::<u32, Error>(e)
                    &&& final(reader)@ == rest
                    &&& *final(state) == *old(state)
                },
                Ok(l) => {
                    &&& final(state).lblock == l
                    &&& (r, final(reader)@) == parse_length(l, passes_in_segment, rest)
                },
            }
        }),
{
    match read_lblock_increment(state, reader) {
        Ok(_) => read_segment_length_value(state.lblock, passes_in_segment, reader),
        Err(e) => Err(e),
    }
}

/// Reads one length per span.
pub(crate) fn read_lengths(lblock: u32, spans: &Vec<u32>, reader: &mut PacketBitReader<'_>) -> (r:
    Result<Vec<u32>, Error>)
    requires
        old(reader).wf(),
    ensures
        final(reader).wf(),
        final(reader).bytes() == old(reader).bytes(),
        final(reader)@ == parse_lengths(lblock, spans@, old(reader)@).1,
        match parse_lengths(lblock, spans@, old(reader)@).0 {
            Ok(lens) => r matches Ok(v) && v@ == lens,
            Err(e) => r matches Err(f) && f == e,
        },
{
    let mut lens: Vec<u32> = Vec::with_capacity(spans.len());
    let ghost (goal, last) = parse_lengths(lblock, spans@, reader@);
    assert(spans@.skip(0) =~= spans@);
    let mut i: usize = 0;
    while i < spans.len()
        invariant
            reader.wf(),
            reader.bytes() == old(reader).bytes(),
            i <= spans@.len(),
            (goal, last) == parse_lengths(lblock, spans@, old(reader)@),
            ({
                let (more, end) = parse_lengths(lblock, spans@.skip(i as int), reader@);
                &&& last == end
                &&& match more {
                    Ok(rest) => goal == Ok::<Seq<u32>, Error>(lens@ + rest),
                    Err(e) => goal == Err::<Seq<u32>, Error>(e),
                }
            }),
        decreases spans@.len() - i,
    {
        assert(spans@.skip(i as int).skip(1) =~= spans@.skip(i + 1));
        match read_segment_length_value(lblock, spans[i], reader) {
            Ok(len) => {
                let ghost before = lens@;
                lens.push(len);
                proof {
                    let (more, end) = parse_lengths(lblock, spans@.skip(i + 1), reader@);
                    if let Ok(rest) = more {
                        assert(before + (seq![len] + rest) =~= lens@ + rest);
                    }
                }
            },
            Err(e) => {
                return Err(e);
            },
        }
        i = i + 1;
    }
    assert(lens@ + Seq::<u32>::empty() =~= lens@);
    Ok(lens)
}

/// The role of the coding pass with index `i` (T.800 §D.3).
pub fn pass_role(i: u32) -> (r: PassRole)
    ensures
        r == role_of(i as int),
{
    if i % 3 == 0 {
        PassRole::Cleanup
    } else if i % 3 == 1 {
        PassRole::Sp
    } else {
        PassRole::Mr
    }
}

/// Whether pass `i` is terminated under selective bypass (T.800 Table D.9).
pub fn bypass_pass_terminated(i: u32, termination_on_each_coding_pass: bool) -> (t: bool)
    ensures
        t == (Boundary::Bypass { every: termination_on_each_coding_pass }).ends(i as int),
{
    termination_on_each_coding_pass || i == 9 || (i >= 10 && pass_role(i) != PassRole::Sp)
}

/// Whether pass `i` is coded raw under selective bypass (T.800 Table D.9).
pub fn bypass_pass_is_raw(i: u32) -> (t: bool)
    ensures
        t == is_raw(i as int),
{
    i >= 10 && pass_role(i) != PassRole::Cleanup
}

/// Whether a segment ends after pass `i` of a high-throughput block with `p0_passes`
/// placeholder passes (T.814 §B.2).
pub fn ht_pass_ends_segment(i: u32, p0_passes: u32) -> (t: bool)
    ensures
        t == (Boundary::Ht { p0: p0_passes as int }).ends(i as int),
{
    i >= p0_passes && (i - p0_passes) % 3 != 1
}

/// The segments under selective bypass: how many passes each has, and whether it is
/// coded raw.
pub fn bypass_segment_spans(
    start_pass: u32,
    passes: u32,
    termination_on_each_coding_pass: bool,
) -> (spans: Vec<(u32, bool)>)
    requires
        start_pass + passes <= u32::MAX,
    ensures
        ({
            let b = Boundary::Bypass { every: termination_on_each_coding_pass };
            let s = b.segments(start_pass as int, start_pass as int, start_pass + passes);
            spans@ == Seq::new(s.len(), |k: int| (s[k].1 as u32, is_raw(s[k].0)))
        }),
{
    let mut spans: Vec<(u32, bool)> = Vec::new();
    let end: u32 = start_pass + passes;
    let mut first: u32 = start_pass;
    let mut i: u32 = start_pass;
    let ghost b = Boundary::Bypass { every: termination_on_each_coding_pass };
    let ghost all = b.segments(start_pass as int, start_pass as int, end as int);
    while i < end
        invariant
            first <= i <= end,
            start_pass <= first,
            b == (Boundary::Bypass { every: termination_on_each_coding_pass }),
            all == b.segments(start_pass as int, start_pass as int, end as int),
            spans@.len() <= all.len(),
            all.skip(spans@.len() as int) == b.segments(first as int, i as int, end as int),
            forall|k: int|
                0 <= k < spans@.len() ==> #[trigger] spans@[k] == (
                    all[k].1 as u32,
                    is_raw(all[k].0),
                ),
        decreases end - i,
    {
        if bypass_pass_terminated(i, termination_on_each_coding_pass) || i + 1 == end {
            let ghost n = spans@.len();
            proof {
                let tail = b.segments(i + 1, i + 1, end as int);
                assert(all.skip(n as int)[0] == (first as int, i + 1 - first));
                assert(all.skip(n as int).skip(1) =~= all.skip((n + 1) as int));
                assert(all.skip(n as int).skip(1) =~= tail);
            }
            spans.push((i - first + 1, bypass_pass_is_raw(first)));
            first = i + 1;
        }
        i = i + 1;
    }
    spans
}

/// The segments of a high-throughput block: how many passes each has.
pub fn ht_segment_spans(start_pass: u32, passes: u32, p0_passes: u32) -> (spans: Vec<u32>)
    requires
        start_pass + passes <= u32::MAX,
    ensures
        spans@ == (Boundary::Ht { p0: p0_passes as int }).spans(start_pass as int, passes as int),
{
    let mut spans: Vec<u32> = Vec::new();
    let end: u32 = start_pass + passes;
    let mut first: u32 = start_pass;
    let mut i: u32 = start_pass;
    let ghost b = Boundary::Ht { p0: p0_passes as int };
    let ghost all = b.segments(start_pass as int, start_pass as int, end as int);
    while i < end
        invariant
            first <= i <= end,
            start_pass <= first,
            b == (Boundary::Ht { p0: p0_passes as int }),
            all == b.segments(start_pass as int, start_pass as int, end as int),
            spans@.len() <= all.len(),
            all.skip(spans@.len() as int) == b.segments(first as int, i as int, end as int),
            forall|k: int| 0 <= k < spans@.len() ==> #[trigger] spans@[k] == all[k].1 as u32,
        decreases end - i,
    {
        if ht_pass_ends_segment(i, p0_passes) || i + 1 == end {
            let ghost n = spans@.len();
            proof {
                let tail = b.segments(i + 1, i + 1, end as int);
                assert(all.skip(n as int)[0] == (first as int, i + 1 - first));
                assert(all.skip(n as int).skip(1) =~= all.skip((n + 1) as int));
                assert(all.skip(n as int).skip(1) =~= tail);
            }
            spans.push(i - first + 1);
            first = i + 1;
        }
        i = i + 1;
    }
    assert(spans@ =~= b.spans(start_pass as int, passes as int));
    spans
}

/// The only pass of a contribution that can be the first cleanup pass of a
/// high-throughput block (T.814 §B.3).
pub fn ht_first_cleanup_candidate(start_pass: u32, passes: u32) -> (c: Option<u32>)
    requires
        start_pass + passes <= u32::MAX,
    ensures
        c == cleanup_candidate(start_pass as int, passes as int),
{
    if passes == 0 {
        return None;
    }
    let c: u32 = (start_pass + passes - 1) / 3 * 3;
    if c >= start_pass {
        Some(c)
    } else {
        None
    }
}

/// Adds up the passes of segments.
pub open spec fn total_passes(s: Seq<(int, int)>) -> int
    decreases s.len(),
{
    if s.len() == 0 {
        0
    } else {
        s[0].1 + total_passes(s.skip(1))
    }
}

/// However the passes of a contribution are cut, every segment has at least one pass
/// and together they have all of them.
pub proof fn law_segments_cover(b: Boundary, first: int, i: int, end: int)
    requires
        first <= i <= end,
        first == i || i < end,
    ensures
        total_passes(b.segments(first, i, end)) == end - first,
        forall|k: int|
            0 <= k < b.segments(first, i, end).len() ==> 1 <= (#[trigger] b.segments(
                first,
                i,
                end,
            )[k]).1 <= end - first,
    decreases end - i,
{
    let s = b.segments(first, i, end);
    if i < end {
        if b.ends(i) || i + 1 == end {
            let tail = b.segments(i + 1, i + 1, end);
            law_segments_cover(b, i + 1, i + 1, end);
            assert(s.skip(1) =~= tail);
            assert forall|k: int| 0 <= k < s.len() implies 1 <= (#[trigger] s[k]).1 <= end - first by {
                if k > 0 {
                    assert(s[k] == tail[k - 1]);
                }
            }
        } else {
            law_segments_cover(b, first, i + 1, end);
        }
    }
}

/// Writes the increase of `Lblock` and the length fields of one contribution
/// (T.800 §B.10.7): `segments` lists the pass count and the length of each segment.
///
/// The increase is written once and is the least with which every length fits.
pub fn encode_segment_lengths(
    state: &mut LblockState,
    segments: &[(u32, u32)],
    writer: &mut PacketBitWriter,
)
    requires
        old(writer).wf(),
        lengths_fit(old(state).lblock as nat, segments@),
    ensures
        final(writer).wf(),
        final(writer)@ == old(writer)@ + written_lengths(old(state).lblock as nat, segments@),
        final(state).lblock == old(state).lblock + lblock_growth(
            old(state).lblock as nat,
            segments@,
        ),
{
    let ghost base = state.lblock as nat;
    let mut k: u32 = 0;
    let mut i: usize = 0;
    assert(segments@.take(0) =~= Seq::<(u32, u32)>::empty());
    while i < segments.len()
        invariant
            i <= segments@.len(),
            *state == *old(state),
            base == state.lblock,
            k == lblock_growth(base, segments@.take(i as int)),
            k <= 32,
        decreases segments@.len() - i,
    {
        let (p, len): (u32, u32) = segments[i];
        let needed: u32 = log2_floor(len) + 1;
        let have: u64 = state.lblock as u64 + log2_floor(p) as u64;
        proof {
            assert(segments@.take(i + 1).drop_last() =~= segments@.take(i as int));
            assert(segments@.take(i + 1).last() == segments@[i as int]);
        }
        if needed as u64 > have + k as u64 {
            k = needed - have as u32;
        }
        i = i + 1;
    }
    assert(segments@.take(segments@.len() as int) =~= segments@);
    let mut j: u32 = 0;
    assert(old(writer)@ + one_bits(0) =~= old(writer)@);
    while j < k
        invariant
            writer.wf(),
            j <= k,
            writer@ == old(writer)@ + one_bits(j as nat),
        decreases k - j,
    {
        writer.write_bit(1);
        assert(old(writer)@ + one_bits(j as nat + 1) =~= (old(writer)@ + one_bits(j as nat)).push(
            true,
        ));
        j = j + 1;
    }
    writer.write_bit(0);
    proof {
        lemma_growth_fits(base, segments@);
    }
    state.lblock = state.lblock + k;
    let ghost head = one_bits(k as nat).push(false);
    let ghost lblock = state.lblock as nat;
    proof {
        assert(writer@ =~= old(writer)@ + (head + length_fields(lblock, segments@.take(0))));
    }
    let mut i: usize = 0;
    while i < segments.len()
        invariant
            writer.wf(),
            i <= segments@.len(),
            state.lblock == lblock,
            lblock == base + lblock_growth(base, segments@),
            lengths_fit(base, segments@),
            writer@ == old(writer)@ + (head + length_fields(lblock, segments@.take(i as int))),
        decreases segments@.len() - i,
    {
        let (p, len): (u32, u32) = segments[i];
        proof {
            assert(segments@[i as int].0 == p);
            assert(segments@.take(i + 1).drop_last() =~= segments@.take(i as int));
            assert(segments@.take(i + 1).last() == segments@[i as int]);
        }
        let width: u32 = state.lblock + log2_floor(p);
        writer.write_bits(len, width as u8);
        proof {
            assert(writer@ =~= old(writer)@ + (head + length_fields(lblock, segments@.take(i + 1))));
        }
        i = i + 1;
    }
    assert(segments@.take(segments@.len() as int) =~= segments@);
}

/// Writes the increase of `Lblock` and one length, with the least increase that makes
/// the length fit.
pub fn encode_segment_length(
    state: &mut LblockState,
    passes_in_segment: u32,
    length: u32,
    writer: &mut PacketBitWriter,
)
    requires
        old(writer).wf(),
        old(state).lblock + floor_log2(passes_in_segment as nat) <= 32,
    ensures
        final(writer).wf(),
        final(writer)@ == old(writer)@ + written_lengths(
            old(state).lblock as nat,
            seq![(passes_in_segment, length)],
        ),
        final(state).lblock == old(state).lblock + lblock_growth(
            old(state).lblock as nat,
            seq![(passes_in_segment, length)],
        ),
{
    let one: [(u32, u32); 1] = [(passes_in_segment, length)];
    let ghost s = seq![(passes_in_segment, length)];
    assert(one@ =~= s);
    let needed: u32 = log2_floor(length) + 1;
    proof {
        reveal_with_fuel(lblock_growth, 2);
        assert(s.last() == (passes_in_segment, length));
        assert(bits_needed(length as nat) == needed);
        assert(lengths_fit(state.lblock as nat, s));
    }
    encode_segment_lengths(state, &one, writer);
}

/// The growth covers every segment.
proof fn lemma_growth_covers(lblock: nat, segments: Seq<(u32, u32)>, i: int)
    requires
        0 <= i < segments.len(),
    ensures
        bits_needed(segments[i].1 as nat) <= lblock + lblock_growth(lblock, segments) + floor_log2(
            segments[i].0 as nat,
        ),
    decreases segments.len(),
{
    let front = segments.drop_last();
    if i < front.len() {
        lemma_growth_covers(lblock, front, i);
        assert(front[i] == segments[i]);
    }
}

/// Where every field fits, `Lblock` stays a 32-bit number.
pub(crate) proof fn lemma_growth_fits(lblock: nat, segments: Seq<(u32, u32)>)
    requires
        lengths_fit(lblock, segments),
        lblock <= u32::MAX,
    ensures
        lblock + lblock_growth(lblock, segments) <= u32::MAX,
{
    if segments.len() > 0 {
        assert(segments[0].0 >= 0);
    }
}

/// A growth is at most 32.
proof fn lemma_growth_small(lblock: nat, segments: Seq<(u32, u32)>)
    ensures
        lblock_growth(lblock, segments) <= 32,
    decreases segments.len(),
{
    if segments.len() > 0 {
        lemma_growth_small(lblock, segments.drop_last());
        lemma_log2_bound(segments.last().1 as nat);
    }
}

/// A number is below the power of two after its logarithm.
proof fn lemma_log2_bound(n: nat)
    ensures
        n < pow2(floor_log2(n) + 1),
        n < 0x1_0000_0000 ==> floor_log2(n) < 32,
    decreases n,
{
    lemma2_to64();
    lemma_pow2_unfold(floor_log2(n) + 1);
    if n > 1 {
        lemma_log2_bound(n / 2);
    }
    lemma_log2_small(n, 32);
}

/// The logarithm of a number below `2^k` is below `k`.
proof fn lemma_log2_small(n: nat, k: nat)
    requires
        k >= 1,
    ensures
        n < pow2(k) ==> floor_log2(n) < k,
    decreases n,
{
    lemma2_to64();
    lemma_pow2_unfold(k);
    if n > 1 && k > 1 {
        lemma_log2_small(n / 2, (k - 1) as nat);
    }
}

/// The fields of a list are the first field and the fields of the rest.
proof fn lemma_fields_front(lblock: nat, segments: Seq<(u32, u32)>)
    requires
        segments.len() > 0,
    ensures
        length_fields(lblock, segments) == bits_of(
            segments[0].1 as nat,
            lblock + floor_log2(segments[0].0 as nat),
        ) + length_fields(lblock, segments.skip(1)),
    decreases segments.len(),
{
    let first = bits_of(segments[0].1 as nat, lblock + floor_log2(segments[0].0 as nat));
    if segments.len() == 1 {
        reveal_with_fuel(length_fields, 2);
        assert(segments.drop_last() =~= Seq::<(u32, u32)>::empty());
        assert(segments.skip(1) =~= Seq::<(u32, u32)>::empty());
        assert(length_fields(lblock, segments) =~= first + Seq::<bool>::empty());
    } else {
        lemma_fields_front(lblock, segments.drop_last());
        assert(segments.drop_last().skip(1) =~= segments.skip(1).drop_last());
        let (p, len) = segments.last();
        let last = bits_of(len as nat, lblock + floor_log2(p as nat));
        assert(length_fields(lblock, segments) =~= first + (length_fields(
            lblock,
            segments.drop_last().skip(1),
        ) + last));
    }
}

/// The pass counts of segments.
pub open spec fn segment_spans(segments: Seq<(u32, u32)>) -> Seq<u32> {
    Seq::new(segments.len(), |i: int| segments[i].0)
}

/// The lengths of segments.
pub open spec fn segment_lengths(segments: Seq<(u32, u32)>) -> Seq<u32> {
    Seq::new(segments.len(), |i: int| segments[i].1)
}

/// Fields that are wide enough are read back.
proof fn lemma_fields_round_trip(lblock: u32, segments: Seq<(u32, u32)>, rest: Seq<bool>)
    requires
        forall|i: int|
            0 <= i < segments.len() ==> bits_needed((#[trigger] segments[i]).1 as nat) <= lblock
                + floor_log2(segments[i].0 as nat) <= 32,
    ensures
        parse_lengths(
            lblock,
            segment_spans(segments),
            length_fields(lblock as nat, segments) + rest,
        ) == (Ok::<Seq<u32>, Error>(segment_lengths(segments)), rest),
    decreases segments.len(),
{
    if segments.len() == 0 {
        assert(length_fields(lblock as nat, segments) + rest =~= rest);
        assert(segment_lengths(segments) =~= Seq::<u32>::empty());
    } else {
        let (p, len) = segments[0];
        let n = lblock + floor_log2(p as nat);
        let tail = segments.skip(1);
        lemma_fields_front(lblock as nat, segments);
        let more = length_fields(lblock as nat, tail) + rest;
        let all = length_fields(lblock as nat, segments) + rest;
        let first = bits_of(len as nat, n as nat);
        assert(all =~= first + more);
        assert(all.take(n) =~= first);
        assert(all.skip(n) =~= more);
        lemma_log2_bound(len as nat);
        if floor_log2(len as nat) + 1 < n {
            vstd::arithmetic::power2::lemma_pow2_strictly_increases(
                (floor_log2(len as nat) + 1) as nat,
                n as nat,
            );
        }
        lemma_bits_value_of(len as nat, n as nat);
        assert(parse_length(lblock, p, all) == (Ok::<u32, Error>(len), more));
        assert forall|i: int| 0 <= i < tail.len() implies bits_needed(
            (#[trigger] tail[i]).1 as nat,
        ) <= lblock + floor_log2(tail[i].0 as nat) <= 32 by {
            assert(tail[i] == segments[i + 1]);
        }
        lemma_fields_round_trip(lblock, tail, rest);
        assert(segment_spans(segments).skip(1) =~= segment_spans(tail));
        assert(seq![len] + segment_lengths(tail) =~= segment_lengths(segments));
    }
}

/// The lengths of a contribution come back as they were written, `Lblock` grows by the
/// same amount on both sides, and no bit more is read.
pub proof fn law_segment_lengths_round_trip(
    lblock: u32,
    segments: Seq<(u32, u32)>,
    rest: Seq<bool>,
)
    requires
        lengths_fit(lblock as nat, segments),
    ensures
        ({
            let (grown, fields) = parse_lblock(
                lblock,
                written_lengths(lblock as nat, segments) + rest,
            );
            let l = (lblock + lblock_growth(lblock as nat, segments)) as u32;
            &&& grown == Ok::<u32, Error>(l)
            &&& parse_lengths(l, segment_spans(segments), fields) == (
                Ok::<Seq<u32>, Error>(segment_lengths(segments)),
                rest,
            )
        }),
{
    let k = lblock_growth(lblock as nat, segments);
    lemma_growth_fits(lblock as nat, segments);
    let l = (lblock + k) as u32;
    let fields = length_fields(l as nat, segments) + rest;
    let all = written_lengths(lblock as nat, segments) + rest;
    assert(all =~= one_bits(k).push(false) + fields);
    lemma_growth_small(lblock as nat, segments);
    lemma_leading_ones_skip(all, k);
    assert(!all.skip(k as int)[0]);
    assert(all.skip((k + 1) as int) =~= fields);
    assert forall|i: int| 0 <= i < segments.len() implies bits_needed(
        (#[trigger] segments[i]).1 as nat,
    ) <= l + floor_log2(segments[i].0 as nat) <= 32 by {
        lemma_growth_covers(lblock as nat, segments, i);
    }
    lemma_fields_round_trip(l, segments, rest);
}

/// Whether segments are such as the first contributions to a high-throughput block may
/// have: placeholders alone, as one segment of length 0, or the first cleanup segment,
/// of at least two bytes, and one segment for the passes after it.
pub open spec fn ht_first_shape(start: int, passes: int, segments: Seq<(u32, u32)>) -> bool {
    ||| segments == seq![(passes as u32, 0u32)]
    ||| {
        &&& cleanup_candidate(start, passes) matches Some(c)
        &&& segments.len() > 0
        &&& segments[0].1 >= 2
        &&& segment_spans(segments) == if c == start + passes - 1 {
            seq![(c - start + 1) as u32]
        } else {
            seq![(c - start + 1) as u32, (start + passes - 1 - c) as u32]
        }
    }
}

/// What is known of the placeholder passes after such segments.
pub open spec fn ht_settled(start: int, passes: int, segments: Seq<(u32, u32)>) -> Option<u32> {
    if segments[0].1 == 0 {
        None
    } else {
        cleanup_candidate(start, passes)
    }
}

/// The first lengths of a high-throughput block come back as they were written, and no
/// bit more is read.
pub proof fn law_ht_first_round_trip(
    lblock: u32,
    start: int,
    passes: int,
    segments: Seq<(u32, u32)>,
    rest: Seq<bool>,
)
    requires
        0 <= start,
        1 <= passes,
        start + passes <= u32::MAX,
        lblock >= 1,
        lengths_fit(lblock as nat, segments),
        ht_first_shape(start, passes, segments),
    ensures
        ({
            let (grown, fields) = parse_lblock(
                lblock,
                written_lengths(lblock as nat, segments) + rest,
            );
            let l = (lblock + lblock_growth(lblock as nat, segments)) as u32;
            &&& grown == Ok::<u32, Error>(l)
            &&& parse_ht_first(l, start, passes, fields) == (HtRead {
                lengths: Ok(segment_lengths(segments)),
                placeholders: ht_settled(start, passes, segments),
                rest,
            })
        }),
{
    law_segment_lengths_round_trip(lblock, segments, rest);
    let (_, fields) = parse_lblock(lblock, written_lengths(lblock as nat, segments) + rest);
    let l = (lblock + lblock_growth(lblock as nat, segments)) as u32;
    if segments == seq![(passes as u32, 0u32)] {
        lemma_ht_placeholders(l, start, passes, segments, fields, rest);
    } else {
        lemma_ht_cleanup(l, start, passes, segments, fields, rest);
    }
}

/// Placeholders alone are read as such.
proof fn lemma_ht_placeholders(
    l: u32,
    start: int,
    passes: int,
    segments: Seq<(u32, u32)>,
    fields: Seq<bool>,
    rest: Seq<bool>,
)
    requires
        l >= 1,
        0 <= start,
        1 <= passes,
        start + passes <= u32::MAX,
        segments == seq![(passes as u32, 0u32)],
        parse_lengths(l, segment_spans(segments), fields) == (
            Ok::<Seq<u32>, Error>(segment_lengths(segments)),
            rest,
        ),
    ensures
        parse_ht_first(l, start, passes, fields) == (HtRead {
            lengths: Ok(segment_lengths(segments)),
            placeholders: None,
            rest,
        }),
{
    let spans = segment_spans(segments);
    reveal_with_fuel(parse_lengths, 2);
    assert(spans =~= seq![passes as u32]);
    assert(spans.skip(1) =~= Seq::<u32>::empty());
    assert(segment_lengths(segments) =~= seq![0u32]);
    let (v, after) = parse_length(l, passes as u32, fields);
    assert((seq![v->Ok_0] + Seq::<u32>::empty())[0] == v->Ok_0);
    assert(v == Ok::<u32, Error>(0));
    let wide = length_width(l, passes as u32)->Ok_0 as nat;
    let field = fields.take(wide as int);
    lemma_bits_value_bound(field);
    lemma_pow2_fits(wide);
    lemma_zero_bits_only(field);
    match cleanup_candidate(start, passes) {
        Some(c) => {
            let span = (c - start + 1) as u32;
            lemma_log2_monotone(span as nat, passes as nat);
            let narrow = length_width(l, span)->Ok_0 as nat;
            assert(narrow <= wide);
            let head = fields.take(narrow as int);
            let mid = fields.skip(narrow as int);
            assert forall|i: int| 0 <= i < head.len() implies !#[trigger] head[i] by {
                assert(head[i] == field[i]);
            }
            lemma_all_zero_value(head);
            let pad = mid.take((wide - narrow) as int);
            assert forall|i: int| 0 <= i < pad.len() implies !#[trigger] pad[i] by {
                assert(pad[i] == field[narrow + i]);
            }
            lemma_all_zero_value(pad);
            assert(mid.skip((wide - narrow) as int) =~= rest);
        },
        None => {},
    }
}

/// A first cleanup segment is read as such.
proof fn lemma_ht_cleanup(
    l: u32,
    start: int,
    passes: int,
    segments: Seq<(u32, u32)>,
    fields: Seq<bool>,
    rest: Seq<bool>,
)
    requires
        0 <= start,
        1 <= passes,
        start + passes <= u32::MAX,
        ht_first_shape(start, passes, segments),
        segments != seq![(passes as u32, 0u32)],
        parse_lengths(l, segment_spans(segments), fields) == (
            Ok::<Seq<u32>, Error>(segment_lengths(segments)),
            rest,
        ),
    ensures
        parse_ht_first(l, start, passes, fields) == (HtRead {
            lengths: Ok(segment_lengths(segments)),
            placeholders: cleanup_candidate(start, passes),
            rest,
        }),
{
    let spans = segment_spans(segments);
    let c = cleanup_candidate(start, passes)->0;
    let left = start + passes - 1 - c;
    reveal_with_fuel(parse_lengths, 3);
    assert(segment_lengths(segments)[0] == segments[0].1);
    let (v, after) = parse_length(l, spans[0], fields);
    let (lens, last) = parse_lengths(l, spans.skip(1), after);
    assert(v is Ok && lens is Ok);
    assert((seq![v->Ok_0] + lens->Ok_0)[0] == v->Ok_0);
    if left == 0 {
        assert(spans.skip(1) =~= Seq::<u32>::empty());
        assert(segment_lengths(segments) =~= seq![v->Ok_0]);
    } else {
        assert(spans.skip(1) =~= seq![left as u32]);
        assert(spans.skip(1).skip(1) =~= Seq::<u32>::empty());
        let (more, _) = parse_length(l, left as u32, after);
        assert(lens->Ok_0 =~= seq![more->Ok_0]);
        assert(segment_lengths(segments) =~= seq![v->Ok_0, more->Ok_0]);
    }
}

/// Bits that stand for 0 are all zero.
proof fn lemma_zero_bits_only(bits: Seq<bool>)
    requires
        bits_value(bits) == 0,
    ensures
        forall|i: int| 0 <= i < bits.len() ==> !#[trigger] bits[i],
    decreases bits.len(),
{
    if bits.len() > 0 {
        lemma_zero_bits_only(bits.drop_last());
        assert forall|i: int| 0 <= i < bits.len() implies !#[trigger] bits[i] by {
            if i < bits.len() - 1 {
                assert(bits.drop_last()[i] == bits[i]);
            }
        }
    }
}

/// Zero bits stand for 0.
proof fn lemma_all_zero_value(bits: Seq<bool>)
    requires
        forall|i: int| 0 <= i < bits.len() ==> !#[trigger] bits[i],
    ensures
        bits_value(bits) == 0,
    decreases bits.len(),
{
    if bits.len() > 0 {
        assert forall|i: int| 0 <= i < bits.drop_last().len() implies !#[trigger] bits.drop_last()[i] by {
            assert(bits.drop_last()[i] == bits[i]);
        }
        lemma_all_zero_value(bits.drop_last());
    }
}

/// The logarithm does not fall.
pub proof fn lemma_log2_monotone(a: nat, b: nat)
    requires
        a <= b,
    ensures
        floor_log2(a) <= floor_log2(b),
    decreases b,
{
    if a > 1 {
        lemma_log2_monotone(a / 2, b / 2);
    }
}

} // verus!
