//! Reading a Palette box (T.800 §I.5.3.4).
use vstd::arithmetic::power2::{lemma_pow2_unfold, pow2};
use vstd::prelude::*;

use crate::be::{be16, be_number, read_be16};
use crate::jp2::types::{ColumnView, Pclr, PclrColumn};
use crate::power::{lemma_pow2_fits, power_of_two};
use crate::Error;

verus! {

/// Bit depth of column `i`.
pub open spec fn column_depth(content: Seq<u8>, i: int) -> nat {
    (content[3 + i] % 0x80 + 1) as nat
}

/// Whether the values of column `i` are signed.
pub open spec fn column_signed(content: Seq<u8>, i: int) -> bool {
    content[3 + i] >= 0x80
}

/// How many bytes a value of column `i` takes.
pub open spec fn value_len(content: Seq<u8>, i: int) -> nat {
    (column_depth(content, i) + 7) / 8
}

/// How many bytes the first `k` columns of one entry take.
pub open spec fn row_len(content: Seq<u8>, k: nat) -> nat
    decreases k,
{
    if k == 0 {
        0
    } else {
        row_len(content, (k - 1) as nat) + value_len(content, k - 1)
    }
}

/// A stored number as a value of `depth` bits: the low bits, in two's complement if
/// signed, and brought into the range of a sample.
pub open spec fn palette_value(raw: nat, depth: nat, signed: bool) -> i32 {
    let low = raw % pow2(depth);
    let v = if signed && low >= pow2((depth - 1) as nat) {
        low - pow2(depth)
    } else {
        low as int
    };
    if v < i32::MIN {
        i32::MIN
    } else if v > i32::MAX {
        i32::MAX
    } else {
        v as i32
    }
}

/// The number of entries.
pub open spec fn palette_entries(content: Seq<u8>) -> nat {
    be16(content, 0) as nat
}

/// The number of columns.
pub open spec fn palette_columns(content: Seq<u8>) -> nat {
    content[2] as nat
}

/// Where value `j` of column `i` stands: the entries follow one another, each with one
/// value per column.
pub open spec fn value_at(content: Seq<u8>, i: int, j: int) -> int {
    let n = palette_columns(content);
    3 + n + j * row_len(content, n) + row_len(content, i as nat)
}

/// Value `j` of column `i`.
pub open spec fn value_of(content: Seq<u8>, i: int, j: int) -> i32 {
    palette_value(
        be_number(content, value_at(content, i, j), value_len(content, i)),
        column_depth(content, i),
        column_signed(content, i),
    )
}

/// Whether this is the content of a Palette box: 1 to 1024 entries, at least one
/// column, no column deeper than 38 bits, and exactly the bytes that this takes.
pub open spec fn is_palette(content: Seq<u8>) -> bool {
    &&& content.len() >= 3
    &&& 1 <= palette_entries(content) <= 1024
    &&& 1 <= palette_columns(content)
    &&& content.len() >= 3 + palette_columns(content)
    &&& forall|i: int|
        0 <= i < palette_columns(content) ==> #[trigger] column_depth(content, i) <= 38
    &&& content.len() == value_at(content, 0, palette_entries(content) as int)
}

/// What a Palette box holds.
pub open spec fn pclr_of(content: Seq<u8>) -> Result<Seq<ColumnView>, Error> {
    if is_palette(content) {
        Ok(
            Seq::new(
                palette_columns(content),
                |i: int|
                    ColumnView {
                        bit_depth: column_depth(content, i) as u8,
                        signed: column_signed(content, i),
                        values: Seq::new(
                            palette_entries(content),
                            |j: int| value_of(content, i, j),
                        ),
                    },
            ),
        )
    } else {
        Err(Error::InvalidMarkerLength)
    }
}

/// Reads a value of `depth` bits at `at`.
fn read_value(content: &[u8], at: usize, depth: u8, signed: bool) -> (v: i32)
    requires
        1 <= depth <= 38,
        at + (depth + 7) / 8 <= content@.len(),
    ensures
        v == palette_value(
            be_number(content@, at as int, ((depth + 7) / 8) as nat),
            depth as nat,
            signed,
        ),
{
    let len: usize = (depth as usize + 7) / 8;
    assert(content.len() == content@.len());
    let mut raw: u64 = 0;
    let mut limit: u64 = 1;
    for i in 0..len
        invariant
            len <= 5,
            at + len <= content@.len(),
            content@.len() <= usize::MAX,
            raw == be_number(content@, at as int, i as nat),
            raw < limit,
            i == 0 ==> limit == 1,
            i == 1 ==> limit == 0x100,
            i == 2 ==> limit == 0x1_0000,
            i == 3 ==> limit == 0x100_0000,
            i == 4 ==> limit == 0x1_0000_0000,
    {
        raw = raw * 0x100 + content[at + i] as u64;
        limit = limit * 0x100;
    }
    let top: u64 = power_of_two(depth);
    let half: u64 = power_of_two(depth - 1);
    proof {
        lemma_pow2_unfold(depth as nat);
        lemma_pow2_fits(depth as nat);
    }
    let low: u64 = raw % top;
    let v: i64 = if signed && low >= half {
        low as i64 - top as i64
    } else {
        low as i64
    };
    if v < i32::MIN as i64 {
        i32::MIN
    } else if v > i32::MAX as i64 {
        i32::MAX
    } else {
        v as i32
    }
}

/// More columns do not take fewer bytes.
proof fn lemma_row_len_grows(content: Seq<u8>, a: nat, b: nat)
    requires
        a <= b,
    ensures
        row_len(content, a) <= row_len(content, b),
    decreases b,
{
    if a < b {
        lemma_row_len_grows(content, a, (b - 1) as nat);
    }
}

/// A value ends before the end of the last entry.
proof fn lemma_value_end(content: Seq<u8>, i: int, j: int)
    requires
        0 <= i < palette_columns(content),
        0 <= j < palette_entries(content),
    ensures
        value_at(content, i, j) + value_len(content, i) <= value_at(
            content,
            0,
            palette_entries(content) as int,
        ),
{
    let n = palette_columns(content);
    let r = row_len(content, n) as int;
    let e = palette_entries(content) as int;
    lemma_row_len_grows(content, (i + 1) as nat, n);
    assert((j + 1) * r <= e * r) by (nonlinear_arith)
        requires
            j + 1 <= e,
            0 <= r,
    ;
    assert((j + 1) * r == j * r + r) by (nonlinear_arith);
}

/// Reads a Palette box.
pub fn parse_pclr_content(content: &[u8]) -> (r: Result<Pclr, Error>)
    ensures
        match pclr_of(content@) {
            Ok(v) => r matches Ok(p) && p@ == v,
            Err(e) => r == Err::<Pclr, Error>(e),
        },
{
    if content.len() < 3 {
        return Err(Error::InvalidMarkerLength);
    }
    let ne: usize = read_be16(content, 0) as usize;
    let npc: usize = content[2] as usize;
    if ne == 0 || ne > 1024 || npc == 0 || content.len() < 3 + npc {
        return Err(Error::InvalidMarkerLength);
    }
    let ghost bytes = content@;
    let mut columns: Vec<PclrColumn> = Vec::with_capacity(npc);
    for i in 0..npc
        invariant
            content@ == bytes,
            npc == palette_columns(bytes),
            npc <= 0xFF,
            bytes.len() >= 3 + npc,
            columns@.len() == i,
            forall|k: int|
                0 <= k < i ==> {
                    &&& (#[trigger] columns@[k]).bit_depth == column_depth(bytes, k)
                    &&& columns@[k].signed == column_signed(bytes, k)
                    &&& columns@[k].values@.len() == 0
                },
            forall|k: int| 0 <= k < i ==> #[trigger] column_depth(bytes, k) <= 38,
    {
        let b: u8 = content[3 + i];
        let depth: u8 = b % 0x80 + 1;
        if depth > 38 {
            assert(column_depth(bytes, i as int) > 38);
            return Err(Error::InvalidMarkerLength);
        }
        columns.push(PclrColumn { bit_depth: depth, signed: b >= 0x80, values: Vec::new() });
    }
    let mut pos: usize = 3 + npc;
    assert(0 * row_len(bytes, npc as nat) == 0) by (nonlinear_arith);
    for j in 0..ne
        invariant
            content@ == bytes,
            content.len() == bytes.len(),
            ne == palette_entries(bytes),
            npc == palette_columns(bytes),
            bytes.len() >= 3 + npc,
            pos == value_at(bytes, 0, j as int),
            pos <= bytes.len(),
            columns@.len() == npc,
            forall|k: int| 0 <= k < npc ==> #[trigger] column_depth(bytes, k) <= 38,
            forall|k: int|
                0 <= k < npc ==> {
                    &&& (#[trigger] columns@[k]).bit_depth == column_depth(bytes, k)
                    &&& columns@[k].signed == column_signed(bytes, k)
                    &&& columns@[k].values@ == Seq::new(j as nat, |q: int| value_of(bytes, k, q))
                },
    {
        for i in 0..npc
            invariant
                content@ == bytes,
                content.len() == bytes.len(),
                j < ne,
                ne == palette_entries(bytes),
                npc == palette_columns(bytes),
                bytes.len() >= 3 + npc,
                pos == value_at(bytes, i as int, j as int),
                pos <= bytes.len(),
                columns@.len() == npc,
                forall|k: int| 0 <= k < npc ==> #[trigger] column_depth(bytes, k) <= 38,
                forall|k: int|
                    0 <= k < npc ==> {
                        &&& (#[trigger] columns@[k]).bit_depth == column_depth(bytes, k)
                        &&& columns@[k].signed == column_signed(bytes, k)
                        &&& columns@[k].values@ == Seq::new(
                            if k < i {
                                (j + 1) as nat
                            } else {
                                j as nat
                            },
                            |q: int| value_of(bytes, k, q),
                        )
                    },
        {
            let depth: u8 = columns[i].bit_depth;
            let signed: bool = columns[i].signed;
            let len: usize = (depth as usize + 7) / 8;
            proof {
                assert(column_depth(bytes, i as int) <= 38);
                lemma_value_end(bytes, i as int, j as int);
            }
            if content.len() - pos < len {
                return Err(Error::InvalidMarkerLength);
            }
            let v: i32 = read_value(content, pos, depth, signed);
            let ghost before = columns@;
            columns[i].values.push(v);
            proof {
                assert(v == value_of(bytes, i as int, j as int));
                assert(columns@[i as int].values@ =~= Seq::new(
                    (j + 1) as nat,
                    |q: int| value_of(bytes, i as int, q),
                ));
            }
            pos = pos + len;
        }
        proof {
            let r = row_len(bytes, npc as nat) as int;
            assert((j + 1) * r == j * r + r) by (nonlinear_arith);
        }
    }
    if pos != content.len() {
        return Err(Error::InvalidMarkerLength);
    }
    let p = Pclr { columns };
    assert(p@ =~= pclr_of(bytes)->Ok_0);
    Ok(p)
}

/// A palette that was read has columns, each with as many values as the box says, at
/// least one.
pub proof fn lemma_palette_filled(content: Seq<u8>)
    requires
        pclr_of(content) is Ok,
    ensures
        ({
            let columns = pclr_of(content)->Ok_0;
            &&& columns.len() == palette_columns(content)
            &&& forall|i: int|
                0 <= i < columns.len() ==> (#[trigger] columns[i]).values.len()
                    == palette_entries(content)
        }),
        1 <= palette_entries(content) <= 1024,
{
}

} // verus!
