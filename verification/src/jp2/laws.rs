//! What the contents of the boxes mean, byte by byte.
use vstd::arithmetic::power2::pow2;
use vstd::prelude::*;

use crate::be::be_number;
use crate::image::{ComponentView, ImageView};
use crate::jp2::boxes::BoxHdr;
use crate::jp2::channels::{
    colour_of, first_def, looked_up, mapped_channel, mapped_channels, mapped_image,
    presentation_order, shown_before,
};
use crate::jp2::content::{
    bpcc_of, cdef_of, channel_def, cmap_entry_allowed, cmap_of, colr_of, defs_clash, ftyp_of,
    grid_resolution_of, ihdr_of, is_signature,
};
use crate::jp2::palette::{
    column_depth, is_palette, palette_value, pclr_of, row_len, value_at, value_len,
};
use crate::jp2::types::{
    enum_cs, Bpcc, ChannelDef, CmapEntry, CmapMapping, Colr, ColrMethod, EnumCs, Ftyp, HeaderView,
    Jp2Container, Jp2Header, Pclr, JP2_SIGNATURE_MAGIC,
};
use crate::Error;

verus! {

/// Two bytes, the high one first.
pub open spec fn two(s: Seq<u8>, at: int) -> int {
    s[at] * 256 + s[at + 1]
}

/// Four bytes, the highest first.
pub open spec fn four(s: Seq<u8>, at: int) -> int {
    s[at] * 16777216 + s[at + 1] * 65536 + s[at + 2] * 256 + s[at + 3]
}

/// A byte as a signed number: 128 and more stand for 256 less.
pub open spec fn as_signed(b: u8) -> int {
    if b >= 128 {
        b - 256
    } else {
        b as int
    }
}

/// The number of a colourspace in a file: 16 for sRGB, 17 for greyscale, 18 for sYCC.
pub open spec fn colourspace_number(c: EnumCs) -> int {
    match c {
        EnumCs::Srgb => 16,
        EnumCs::Greyscale => 17,
        EnumCs::Sycc => 18,
        EnumCs::Reserved(v) => v as int,
    }
}

/// A colourspace that was read has the number that it was read from, and the numbers 16, 17
/// and 18 are not read as reserved ones.
pub proof fn law_colourspace(v: u32)
    ensures
        colourspace_number(enum_cs(v)) == v,
        enum_cs(v) is Reserved <==> v != 16 && v != 17 && v != 18,
{
}

/// The content of a signature box is the four bytes 13, 10, 135, 10.
pub proof fn law_signature(content: Seq<u8>)
    ensures
        is_signature(content) <==> content.len() == 4 && content[0] == 13 && content[1] == 10
            && content[2] == 135 && content[3] == 10,
{
    if content.len() == 4 && content[0] == 13 && content[1] == 10 && content[2] == 135 && content[3]
        == 10 {
        assert(content =~= JP2_SIGNATURE_MAGIC@);
    }
}

/// A File Type box is a brand, a version and a list of brands, of four bytes each.
pub proof fn law_file_type(content: Seq<u8>)
    ensures
        match ftyp_of(content) {
            Ok(f) => {
                &&& content.len() == 8 + 4 * f.compatibility.len()
                &&& f.brand == four(content, 0)
                &&& f.minor_version == four(content, 4)
                &&& forall|i: int|
                    0 <= i < f.compatibility.len() ==> #[trigger] f.compatibility[i] == four(
                        content,
                        8 + 4 * i,
                    )
            },
            Err(e) => e == Error::InvalidMarkerLength && (content.len() < 8 || content.len() % 4
                != 0),
        },
{
}

/// An Image Header box has height, width, number of components, bit depth, compression, and
/// two flags, in this order. It is refused if it is not of this length, if the image is
/// empty, or if there is no component or more than 16384.
pub proof fn law_image_header(content: Seq<u8>)
    ensures
        match ihdr_of(content) {
            Ok(h) => {
                &&& content.len() == 14
                &&& h.height == four(content, 0)
                &&& h.width == four(content, 4)
                &&& h.component_count == two(content, 8)
                &&& h.bpc == content[10]
                &&& h.compression == content[11]
                &&& h.colourspace_unknown == content[12]
                &&& h.ipr == content[13]
                &&& h.height > 0 && h.width > 0
                &&& 1 <= h.component_count <= 16384
            },
            Err(Error::InvalidComponentCount) => content.len() == 14 && four(content, 0) > 0
                && four(content, 4) > 0 && (two(content, 8) == 0 || two(content, 8) > 16384),
            Err(e) => e == Error::InvalidMarkerLength && (content.len() != 14 || four(content, 0)
                == 0 || four(content, 4) == 0),
        },
{
}

/// A Bits Per Component box has one byte for each component.
pub proof fn law_bits_per_component(content: Seq<u8>, components: u16)
    ensures
        match bpcc_of(content, components) {
            Ok(b) => b == content && content.len() == components,
            Err(e) => e == Error::InvalidMarkerLength && content.len() != components,
        },
{
}

/// A Colour Specification box names a colourspace in the way that its first byte says: 1 by
/// a number, 2 and 3 by a profile, 5 by code points; any other way is passed over.
pub proof fn law_colour(content: Seq<u8>)
    ensures
        match colr_of(content) {
            Ok(c) => {
                &&& content.len() >= 3
                &&& c.precedence == as_signed(content[1])
                &&& c.approximation == content[2]
                &&& c.method is Enumerated <==> content[0] == 1
                &&& c.method is RestrictedIccProfile <==> content[0] == 2
                &&& c.method is AnyIcc <==> content[0] == 3
                &&& c.method is Parameterized <==> content[0] == 5
                &&& c.method matches ColrMethod::Reserved(b) ==> b == content[0]
                &&& c.enumerated is Some <==> content[0] == 1
                &&& c.icc_profile is Some <==> content[0] == 2 || content[0] == 3
                &&& c.parameterized is Some <==> content[0] == 5
                &&& c.enumerated matches Some(n) ==> content.len() == 7 && colourspace_number(n)
                    == four(content, 3)
                &&& c.icc_profile matches Some(p) ==> content.len() > 3 && content == content.take(
                    3,
                ) + p
                &&& c.parameterized matches Some(p) ==> {
                    &&& content.len() == 10
                    &&& p.colour_primaries == two(content, 3)
                    &&& p.transfer_characteristics == two(content, 5)
                    &&& p.matrix_coefficients == two(content, 7)
                    &&& p.video_full_range <==> content[9] >= 128
                }
            },
            Err(e) => {
                &&& e == Error::InvalidMarkerLength
                &&& content.len() < 3 || match content[0] {
                    1 => content.len() != 7,
                    2 | 3 => content.len() == 3,
                    5 => content.len() != 10,
                    _ => false,
                }
            },
        },
        content.len() == 7 && content[0] == 1 && four(content, 3) == 16 ==> colr_of(
            content,
        )->Ok_0.enumerated == Some(EnumCs::Srgb),
        content.len() == 7 && content[0] == 1 && four(content, 3) == 17 ==> colr_of(
            content,
        )->Ok_0.enumerated == Some(EnumCs::Greyscale),
        content.len() == 7 && content[0] == 1 && four(content, 3) == 18 ==> colr_of(
            content,
        )->Ok_0.enumerated == Some(EnumCs::Sycc),
{
    if colr_of(content) is Ok {
        let c = colr_of(content)->Ok_0;
        if content[0] == 1 {
            law_colourspace(four(content, 3) as u32);
        }
        if content[0] == 2 || content[0] == 3 {
            assert(content =~= content.take(3) + content.skip(3));
        }
    }
}

/// A Component Mapping box has four bytes for each channel: the component, how it is made
/// from it (0 as it is, 1 through a column of the palette), and the column.
pub proof fn law_component_mapping(content: Seq<u8>)
    ensures
        match cmap_of(content) {
            Ok(entries) => {
                &&& entries.len() > 0
                &&& content.len() == 4 * entries.len()
                &&& forall|i: int|
                    0 <= i < entries.len() ==> {
                        let e = #[trigger] entries[i];
                        &&& e.component == two(content, 4 * i)
                        &&& e.component <= 16384
                        &&& match e.mapping {
                            CmapMapping::Direct => content[4 * i + 2] == 0 && content[4 * i + 3]
                                == 0,
                            CmapMapping::Palette { column } => content[4 * i + 2] == 1
                                && content[4 * i + 3] == column,
                        }
                    }
            },
            Err(e) => {
                &&& e == Error::InvalidMarkerLength
                &&& content.len() == 0 || content.len() % 4 != 0 || exists|i: int|
                    #![trigger content[4 * i]]
                    0 <= i < content.len() / 4 && (two(content, 4 * i) > 16384 || content[4 * i
                        + 2] > 1 || content[4 * i + 2] == 0 && content[4 * i + 3] != 0)
            },
        },
{
    match cmap_of(content) {
        Ok(entries) => {
            assert forall|i: int| 0 <= i < entries.len() implies {
                let e = #[trigger] entries[i];
                &&& e.component == two(content, 4 * i)
                &&& e.component <= 16384
                &&& match e.mapping {
                    CmapMapping::Direct => content[4 * i + 2] == 0 && content[4 * i + 3] == 0,
                    CmapMapping::Palette { column } => content[4 * i + 2] == 1 && content[4 * i + 3]
                        == column,
                }
            } by {
                assert(cmap_entry_allowed(content, 4 * i));
            }
        },
        Err(_) => {
            if content.len() > 0 && content.len() % 4 == 0 {
                let i = choose|i: int|
                    0 <= i < content.len() / 4 && !#[trigger] cmap_entry_allowed(content, 4 * i);
                assert(two(content, 4 * i) > 16384 || content[4 * i + 2] > 1 || content[4 * i + 2]
                    == 0 && content[4 * i + 3] != 0);
                let b = content[4 * i];
            }
        },
    }
}

/// A Channel Definition box has the number of descriptions, then six bytes for each: the
/// channel, its kind, and the colour to which it belongs. It is refused where two channels
/// are given the same kind for the same colour, both known.
pub proof fn law_channel_definitions(content: Seq<u8>)
    ensures
        match cdef_of(content) {
            Ok(defs) => {
                &&& defs.len() > 0
                &&& defs.len() == two(content, 0)
                &&& content.len() == 2 + 6 * defs.len()
                &&& forall|i: int|
                    0 <= i < defs.len() ==> {
                        let d = #[trigger] defs[i];
                        &&& d.channel == two(content, 2 + 6 * i)
                        &&& d.channel_type == two(content, 4 + 6 * i)
                        &&& d.association == two(content, 6 + 6 * i)
                    }
                &&& forall|i: int, j: int|
                    #![trigger defs[i], defs[j]]
                    0 <= i < j < defs.len() && defs[i].channel_type != 65535 && defs[i].association
                        != 65535 ==> defs[i].channel_type != defs[j].channel_type
                        || defs[i].association != defs[j].association
            },
            Err(e) => {
                &&& e == Error::InvalidMarkerLength
                &&& content.len() < 2 || two(content, 0) == 0 || content.len() != 2 + 6 * two(
                    content,
                    0,
                ) || exists|i: int, j: int|
                    #![trigger content[4 + 6 * i], content[4 + 6 * j]]
                    {
                        &&& 0 <= i < j < two(content, 0)
                        &&& two(content, 4 + 6 * i) == two(content, 4 + 6 * j)
                        &&& two(content, 4 + 6 * i) != 65535
                        &&& two(content, 6 + 6 * i) == two(content, 6 + 6 * j)
                        &&& two(content, 6 + 6 * i) != 65535
                    }
            },
        },
{
    match cdef_of(content) {
        Ok(defs) => {
            assert forall|i: int, j: int|
                #![trigger defs[i], defs[j]]
                0 <= i < j < defs.len() && defs[i].channel_type != 65535 && defs[i].association
                    != 65535 implies defs[i].channel_type != defs[j].channel_type
                || defs[i].association != defs[j].association by {
                assert(!defs_clash(defs[i], defs[j]));
            }
        },
        Err(_) => {
            if content.len() >= 2 && two(content, 0) != 0 && content.len() == 2 + 6 * two(
                content,
                0,
            ) {
                let n = two(content, 0);
                let defs = Seq::new(n as nat, |i: int| channel_def(content, 2 + 6 * i));
                let (i, j) = choose|i: int, j: int|
                    0 <= i < j < defs.len() && #[trigger] defs_clash(defs[i], defs[j]);
                assert(defs_clash(defs[i], defs[j]));
                assert(defs[i].channel_type == two(content, 4 + 6 * i));
                assert(defs[j].channel_type == two(content, 4 + 6 * j));
                assert(defs[i].association == two(content, 6 + 6 * i));
                assert(defs[j].association == two(content, 6 + 6 * j));
                let a = content[4 + 6 * i];
                let b = content[4 + 6 * j];
            }
        },
    }
}

/// A resolution is a fraction and a power of ten, first for the vertical, then for the
/// horizontal direction; both exponents come last. No part of a fraction is 0.
pub proof fn law_resolution(content: Seq<u8>)
    ensures
        match grid_resolution_of(content) {
            Ok(r) => {
                &&& content.len() == 10
                &&& r.vertical_numerator == two(content, 0)
                &&& r.vertical_numerator > 0
                &&& r.vertical_denominator == two(content, 2)
                &&& r.vertical_denominator > 0
                &&& r.horizontal_numerator == two(content, 4)
                &&& r.horizontal_numerator > 0
                &&& r.horizontal_denominator == two(content, 6)
                &&& r.horizontal_denominator > 0
                &&& r.vertical_exponent == as_signed(content[8])
                &&& r.horizontal_exponent == as_signed(content[9])
            },
            Err(e) => e == Error::InvalidMarkerLength && (content.len() != 10 || two(content, 0)
                == 0 || two(content, 2) == 0 || two(content, 4) == 0 || two(content, 6) == 0),
        },
{
}

/// A value of a palette is the low bits of what is stored, as many as the column is deep,
/// as a signed number where the column is signed, and at the end of the range of 32 bits
/// where it lies beyond it.
pub proof fn law_palette_value(raw: nat, depth: nat, signed: bool)
    requires
        1 <= depth <= 38,
    ensures
        ({
            let v = palette_value(raw, depth, signed);
            let low = raw % pow2(depth);
            &&& !signed && low <= i32::MAX ==> v == low
            &&& !signed && low > i32::MAX ==> v == i32::MAX
            &&& signed && 2 * low < pow2(depth) && low <= i32::MAX ==> v == low
            &&& signed && 2 * low < pow2(depth) && low > i32::MAX ==> v == i32::MAX
            &&& signed && 2 * low >= pow2(depth) && low - pow2(depth) >= i32::MIN ==> v == low
                - pow2(depth)
            &&& signed && 2 * low >= pow2(depth) && low - pow2(depth) < i32::MIN ==> v == i32::MIN
        }),
{
    vstd::arithmetic::power2::lemma_pow2_unfold(depth);
    vstd::arithmetic::power2::lemma_pow2_pos(depth);
    vstd::arithmetic::div_mod::lemma_mod_bound(raw as int, pow2(depth) as int);
}

/// Numbers of several bytes have the highest byte first.
pub proof fn law_number_bytes(s: Seq<u8>, at: int, n: nat)
    ensures
        be_number(s, at, 0) == 0,
        be_number(s, at, 1) == s[at],
        be_number(s, at, n + 1) == be_number(s, at, n) * 256 + s[at + n],
{
    reveal_with_fuel(be_number, 2);
}

/// A palette has the number of its entries (1 to 1024), the number of its columns, a byte
/// for each column (bit depth less one, and in the top bit whether it is signed), and the
/// values, entry after entry, each in as many bytes as its bits take. Nothing follows.
pub proof fn law_palette(content: Seq<u8>)
    requires
        pclr_of(content) is Ok,
    ensures
        ({
            let p = pclr_of(content)->Ok_0;
            let entries = two(content, 0);
            &&& p.len() == content[2]
            &&& p.len() > 0
            &&& 1 <= entries <= 1024
            &&& content.len() == value_at(content, 0, entries)
            &&& value_at(content, 0, 0) == 3 + p.len()
            &&& forall|i: int|
                0 <= i < p.len() ==> {
                    &&& (#[trigger] p[i]).bit_depth == content[3 + i] % 128 + 1
                    &&& p[i].bit_depth <= 38
                    &&& p[i].signed <==> content[3 + i] >= 128
                    &&& p[i].values.len() == entries
                }
            &&& forall|i: int, j: int|
                0 <= i < p.len() && 0 <= j < entries ==> #[trigger] p[i].values[j] == palette_value(
                    be_number(
                        content,
                        value_at(content, i, j),
                        ((p[i].bit_depth + 7) / 8) as nat,
                    ),
                    p[i].bit_depth as nat,
                    p[i].signed,
                )
        }),
{
    let p = pclr_of(content)->Ok_0;
    assert forall|i: int| 0 <= i < p.len() implies {
        &&& (#[trigger] p[i]).bit_depth == content[3 + i] % 128 + 1
        &&& p[i].bit_depth <= 38
        &&& p[i].signed <==> content[3 + i] >= 128
        &&& p[i].values.len() == two(content, 0)
    } by {
        assert(column_depth(content, i) <= 38);
    }
    reveal_with_fuel(row_len, 1);
    assert(0 * row_len(content, content[2] as nat) == 0);
}

/// The values of a palette follow each other: behind a value comes that of the next column,
/// behind the last column the next entry.
pub proof fn law_palette_places(content: Seq<u8>, i: int, j: int)
    requires
        0 <= i < content[2],
    ensures
        ({
            let bytes = (content[3 + i] % 128 + 8) / 8;
            &&& i + 1 < content[2] ==> value_at(content, i + 1, j) == value_at(content, i, j)
                + bytes
            &&& i + 1 == content[2] ==> value_at(content, 0, j + 1) == value_at(content, i, j)
                + bytes
        }),
{
    let n = content[2] as nat;
    let row = row_len(content, n) as int;
    reveal_with_fuel(row_len, 2);
    assert(row_len(content, (i + 1) as nat) == row_len(content, i as nat) + value_len(content, i));
    assert((j + 1) * row == j * row + row) by (nonlinear_arith);
}

/// A palette is refused for its number of entries or columns, for a column of more than 38
/// bits, and for its length, and for nothing else.
pub proof fn law_palette_refused(content: Seq<u8>)
    ensures
        match pclr_of(content) {
            Ok(_) => true,
            Err(e) => {
                &&& e == Error::InvalidMarkerLength
                &&& {
                    ||| content.len() < 3
                    ||| two(content, 0) == 0
                    ||| two(content, 0) > 1024
                    ||| content[2] == 0
                    ||| content.len() < 3 + content[2]
                    ||| exists|i: int|
                        0 <= i < content[2] && (#[trigger] content[3 + i]) % 128 + 1 > 38
                    ||| content.len() != value_at(content, 0, two(content, 0))
                }
            },
        },
{
    if content.len() >= 3 && 1 <= two(content, 0) <= 1024 && content[2] > 0 && content.len() >= 3
        + content[2] && content.len() == value_at(content, 0, two(content, 0)) && !is_palette(
        content,
    ) {
        let i = choose|i: int| 0 <= i < content[2] && #[trigger] column_depth(content, i) > 38;
        assert(column_depth(content, i) > 38);
        assert(content[3 + i] % 128 + 1 > 38);
    }
}

/// A sample selects the value of its number, a negative one the first and one that is too
/// great the last.
pub proof fn law_lookup(values: Seq<i32>, sample: i32)
    requires
        values.len() > 0,
    ensures
        0 <= sample < values.len() ==> looked_up(values, sample) == values[sample as int],
        sample < 0 ==> looked_up(values, sample) == values.first(),
        sample >= values.len() ==> looked_up(values, sample) == values.last(),
{
}

/// A channel is a component as it is, or has the size of the component, the depth and sign
/// of a column of the palette and, sample by sample, its values. It fails where component
/// or column do not exist, and where the column is deeper than 32 bits.
pub proof fn law_channel(h: HeaderView, components: Seq<ComponentView>, e: CmapEntry)
    ensures
        ({
            let r = mapped_channel(h, components, e);
            let exists_ = e.component < components.len();
            match e.mapping {
                CmapMapping::Direct => {
                    &&& exists_ ==> r == Ok::<ComponentView, Error>(components[e.component as int])
                    &&& !exists_ ==> r == Err::<ComponentView, Error>(Error::InvalidMarkerLength)
                },
                CmapMapping::Palette { column } => {
                    let there = exists_ && h.pclr is Some && column < h.pclr->0.len();
                    let col = h.pclr->0[column as int];
                    let c = components[e.component as int];
                    &&& r == Err::<ComponentView, Error>(Error::InvalidMarkerLength) <==> !there
                    &&& r == Err::<ComponentView, Error>(Error::NotImplemented) <==> there
                        && col.bit_depth > 32
                    &&& r is Ok <==> there && col.bit_depth <= 32
                    &&& r matches Ok(v) ==> {
                        &&& v.width == c.width && v.height == c.height
                        &&& v.h_separation == c.h_separation && v.v_separation == c.v_separation
                        &&& v.precision_bits == col.bit_depth
                        &&& v.is_signed == col.signed
                        &&& v.samples.len() == c.samples.len()
                        &&& forall|i: int|
                            0 <= i < c.samples.len() ==> #[trigger] v.samples[i] == looked_up(
                                col.values,
                                c.samples[i],
                            )
                    }
                },
            }
        }),
{
}

/// The channels of a mapping are made one by one, in its order; the first that fails gives
/// the error.
pub proof fn law_channels(
    h: HeaderView,
    components: Seq<ComponentView>,
    entries: Seq<CmapEntry>,
    k: nat,
)
    requires
        k <= entries.len(),
    ensures
        match mapped_channels(h, components, entries, k) {
            Ok(cs) => {
                &&& cs.len() == entries.len() - k
                &&& forall|i: int|
                    0 <= i < cs.len() ==> mapped_channel(h, components, entries[k + i]) == Ok::<
                        ComponentView,
                        Error,
                    >(#[trigger] cs[i])
            },
            Err(e) => exists|j: int|
                {
                    &&& k <= j < entries.len()
                    &&& #[trigger] mapped_channel(h, components, entries[j]) == Err::<
                        ComponentView,
                        Error,
                    >(e)
                    &&& forall|i: int|
                        k <= i < j ==> #[trigger] mapped_channel(h, components, entries[i]) is Ok
                },
        },
    decreases entries.len() - k,
{
    if k < entries.len() {
        law_channels(h, components, entries, k + 1);
        let first = mapped_channel(h, components, entries[k as int]);
        if let Ok(c) = first {
            match mapped_channels(h, components, entries, k + 1) {
                Ok(more) => {
                    let cs = seq![c] + more;
                    assert forall|i: int| 0 <= i < cs.len() implies mapped_channel(
                        h,
                        components,
                        entries[k + i],
                    ) == Ok::<ComponentView, Error>(#[trigger] cs[i]) by {
                        if i > 0 {
                            assert(cs[i] == more[i - 1]);
                        }
                    }
                },
                Err(e) => {
                    let j = choose|j: int|
                        {
                            &&& k + 1 <= j < entries.len()
                            &&& #[trigger] mapped_channel(h, components, entries[j]) == Err::<
                                ComponentView,
                                Error,
                            >(e)
                            &&& forall|i: int|
                                k + 1 <= i < j ==> #[trigger] mapped_channel(
                                    h,
                                    components,
                                    entries[i],
                                ) is Ok
                        };
                    assert(mapped_channel(h, components, entries[j]) == Err::<ComponentView, Error>(
                        e,
                    ));
                },
            }
        }
    }
}

/// The first description of a channel.
proof fn lemma_first_def(defs: Seq<ChannelDef>, c: int, k: nat)
    ensures
        match first_def(defs, c, k) {
            Some(d) => exists|i: int|
                {
                    &&& k <= i < defs.len()
                    &&& #[trigger] defs[i] == d
                    &&& d.channel == c
                    &&& forall|j: int| k <= j < i ==> (#[trigger] defs[j]).channel != c
                },
            None => forall|j: int| k <= j < defs.len() ==> (#[trigger] defs[j]).channel != c,
        },
    decreases defs.len() - k,
{
    if k < defs.len() && defs[k as int].channel != c {
        lemma_first_def(defs, c, k + 1);
    }
}

/// A channel shows a colour if its first description says so: of kind 0, and for a colour
/// of a number from 1 to 65534.
pub proof fn law_colour_channel(defs: Seq<ChannelDef>, c: int, i: int)
    requires
        0 <= i < defs.len(),
        defs[i].channel == c,
        forall|j: int| 0 <= j < i ==> (#[trigger] defs[j]).channel != c,
    ensures
        colour_of(defs, c) == if defs[i].channel_type == 0 && 1 <= defs[i].association <= 65534 {
            Some(defs[i].association)
        } else {
            None
        },
{
    lemma_first_def(defs, c, 0);
}

/// A channel that is not described shows no colour.
pub proof fn law_undescribed_channel(defs: Seq<ChannelDef>, c: int)
    requires
        forall|j: int| 0 <= j < defs.len() ==> (#[trigger] defs[j]).channel != c,
    ensures
        colour_of(defs, c) is None,
{
    lemma_first_def(defs, c, 0);
}

/// In the order in which channels are shown a channel with a colour stands before every
/// channel without one and before those with colours of greater numbers; otherwise channels
/// keep their order.
pub proof fn law_shown_in_order(defs: Seq<ChannelDef>, n: nat, i: int, j: int)
    requires
        0 <= i < j < n,
    ensures
        ({
            let a = presentation_order(defs, n)[i];
            let b = presentation_order(defs, n)[j];
            match (colour_of(defs, a), colour_of(defs, b)) {
                (Some(x), Some(y)) => x < y || x == y && a < b,
                (Some(_), None) => true,
                (None, Some(_)) => false,
                (None, None) => a < b,
            }
        }),
{
    crate::jp2::channels::law_presentation_order(defs, n);
    assert(shown_before(defs, presentation_order(defs, n)[i], presentation_order(defs, n)[j]));
}

/// What is read from boxes stands for what its fields say.
pub proof fn law_box_fields(f: Ftyp, b: Bpcc, c: Colr, p: Pclr, i: int)
    requires
        0 <= i < p.columns@.len(),
    ensures
        f@.brand == f.brand,
        f@.minor_version == f.minor_version,
        f@.compatibility == f.compatibility@,
        b@ == b.bpci@,
        c@.method == c.method,
        c@.precedence == c.precedence,
        c@.approximation == c.approximation,
        c@.enumerated == c.enumerated,
        c@.parameterized == c.parameterized,
        c.icc_profile is None ==> c@.icc_profile is None,
        c.icc_profile matches Some(v) ==> c@.icc_profile == Some(v@),
        p@.len() == p.columns@.len(),
        p@[i].bit_depth == p.columns@[i].bit_depth,
        p@[i].signed == p.columns@[i].signed,
        p@[i].values == p.columns@[i].values@,
{
}

/// A JP2 Header stands for what its fields say.
pub proof fn law_header_fields(h: Jp2Header, i: int)
    requires
        0 <= i < h.colr@.len(),
    ensures
        h@.ihdr == h.ihdr,
        h@.colr.len() == h.colr@.len(),
        h@.colr[i] == h.colr@[i]@,
        h@.resolution == h.resolution,
        h.bpcc is None <==> h@.bpcc is None,
        h.bpcc matches Some(b) ==> h@.bpcc == Some(b@),
        h.pclr is None <==> h@.pclr is None,
        h.pclr matches Some(p) ==> h@.pclr == Some(p@),
        h.cmap is None <==> h@.cmap is None,
        h.cmap matches Some(m) ==> h@.cmap == Some(m@),
        h.cdef is None <==> h@.cdef is None,
        h.cdef matches Some(d) ==> h@.cdef == Some(d@),
{
}

/// A file stands for what its fields say.
pub proof fn law_container_fields(c: Jp2Container, b: BoxHdr)
    ensures
        c@.ftyp == c.ftyp@,
        c@.header == c.header@,
        c@.codestream_offset == c.codestream_offset,
        c@.codestream_len == c.codestream_len,
        b@.box_type == b.box_type,
        b@.start == b.offset + b.header_len,
        b@.end == b@.start + b.content_len,
{
}

/// The image of a file has the size of the decoded one. Its components are the channels of
/// the component mapping, or else those that were decoded, in the order in which they are
/// shown, or else as they are.
pub proof fn law_image(h: HeaderView, image: ImageView)
    ensures
        ({
            let channels = match h.cmap {
                Some(entries) => mapped_channels(h, image.components, entries, 0),
                None => Ok(image.components),
            };
            match mapped_image(h, image) {
                Ok(v) => {
                    &&& channels is Ok
                    &&& v.width == image.width && v.height == image.height
                    &&& v.components.len() == channels->Ok_0.len()
                    &&& h.cdef is None ==> v.components == channels->Ok_0
                    &&& h.cdef matches Some(defs) ==> forall|i: int|
                        0 <= i < v.components.len() ==> #[trigger] v.components[i]
                            == channels->Ok_0[presentation_order(defs, channels->Ok_0.len())[i]]
                },
                Err(e) => channels is Err && channels->Err_0 == e,
            }
        }),
{
    if let Some(defs) = h.cdef {
        if mapped_image(h, image) is Ok {
            let channels = match h.cmap {
                Some(entries) => mapped_channels(h, image.components, entries, 0),
                None => Ok::<Seq<ComponentView>, Error>(image.components),
            };
            crate::jp2::channels::law_presentation_order(defs, channels->Ok_0.len());
        }
    }
}

} // verus!
