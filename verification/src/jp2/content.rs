//! Reading the content of the boxes of a JP2 file (T.800 §I.5).
//!
//! Each box has a spec function that says for every content what it holds or why it is
//! refused, and a parser that computes it.
use vstd::prelude::*;

use crate::be::{be16, be32, copy_range, read_be16, read_be32, read_signed_byte, signed_byte};
use crate::jp2::types::{
    colr_method, enum_cs, Bpcc, ChannelDef, CmapEntry, CmapMapping, Colr, ColrMethod, ColrView,
    EnumCs, Ftyp, FtypView, GridResolution, Ihdr, Jp2SignatureBox, ParameterizedColour,
    JP2_SIGNATURE_MAGIC,
};
use crate::Error;

verus! {

/// Whether this is the content of a Signature box.
pub open spec fn is_signature(content: Seq<u8>) -> bool {
    content == JP2_SIGNATURE_MAGIC@
}

/// Reads a Signature box (T.800 §I.5.1).
pub fn parse_signature_content(content: &[u8]) -> (r: Result<Jp2SignatureBox, Error>)
    ensures
        is_signature(content@) ==> r == Ok::<Jp2SignatureBox, Error>(Jp2SignatureBox),
        !is_signature(content@) ==> r == Err::<Jp2SignatureBox, Error>(Error::InvalidMarkerLength),
{
    if content.len() != 4 {
        return Err(Error::InvalidMarkerLength);
    }
    let mut i: usize = 0;
    while i < 4
        invariant
            i <= 4,
            content@.len() == 4,
            forall|k: int| 0 <= k < i ==> content@[k] == JP2_SIGNATURE_MAGIC@[k],
        decreases 4 - i,
    {
        if content[i] != JP2_SIGNATURE_MAGIC[i] {
            return Err(Error::InvalidMarkerLength);
        }
        i = i + 1;
    }
    assert(content@ =~= JP2_SIGNATURE_MAGIC@);
    Ok(Jp2SignatureBox)
}

/// What a File Type box holds: brand, minor version, and any number of brands.
pub open spec fn ftyp_of(content: Seq<u8>) -> Result<FtypView, Error> {
    if content.len() < 8 || content.len() % 4 != 0 {
        Err(Error::InvalidMarkerLength)
    } else {
        Ok(
            FtypView {
                brand: be32(content, 0) as u32,
                minor_version: be32(content, 4) as u32,
                compatibility: Seq::new(
                    ((content.len() - 8) / 4) as nat,
                    |i: int| be32(content, 8 + 4 * i) as u32,
                ),
            },
        )
    }
}

/// Reads a File Type box (T.800 §I.5.2).
pub fn parse_ftyp_content(content: &[u8]) -> (r: Result<Ftyp, Error>)
    ensures
        match ftyp_of(content@) {
            Ok(v) => r matches Ok(f) && f@ == v,
            Err(e) => r == Err::<Ftyp, Error>(e),
        },
{
    let n: usize = content.len();
    if n < 8 || n % 4 != 0 {
        return Err(Error::InvalidMarkerLength);
    }
    let brand: u32 = read_be32(content, 0);
    let minor_version: u32 = read_be32(content, 4);
    let count: usize = (n - 8) / 4;
    let mut compatibility: Vec<u32> = Vec::with_capacity(count);
    for i in 0..count
        invariant
            content@.len() == n,
            count == (n - 8) / 4,
            8 <= n,
            compatibility@ == Seq::new(i as nat, |k: int| be32(content@, 8 + 4 * k) as u32),
    {
        compatibility.push(read_be32(content, 8 + 4 * i));
    }
    Ok(Ftyp { brand, minor_version, compatibility })
}

/// What an Image Header box holds: a size that is not empty and up to 16384 components.
pub open spec fn ihdr_of(content: Seq<u8>) -> Result<Ihdr, Error> {
    if content.len() != 14 {
        Err(Error::InvalidMarkerLength)
    } else {
        let ihdr = Ihdr {
            height: be32(content, 0) as u32,
            width: be32(content, 4) as u32,
            component_count: be16(content, 8) as u16,
            bpc: content[10],
            compression: content[11],
            colourspace_unknown: content[12],
            ipr: content[13],
        };
        if ihdr.height == 0 || ihdr.width == 0 {
            Err(Error::InvalidMarkerLength)
        } else if !(1 <= ihdr.component_count <= 16384) {
            Err(Error::InvalidComponentCount)
        } else {
            Ok(ihdr)
        }
    }
}

/// Reads an Image Header box (T.800 §I.5.3.1).
pub fn parse_ihdr_content(content: &[u8]) -> (r: Result<Ihdr, Error>)
    ensures
        r == ihdr_of(content@),
{
    if content.len() != 14 {
        return Err(Error::InvalidMarkerLength);
    }
    let ihdr = Ihdr {
        height: read_be32(content, 0),
        width: read_be32(content, 4),
        component_count: read_be16(content, 8),
        bpc: content[10],
        compression: content[11],
        colourspace_unknown: content[12],
        ipr: content[13],
    };
    if ihdr.height == 0 || ihdr.width == 0 {
        return Err(Error::InvalidMarkerLength);
    }
    if ihdr.component_count == 0 || ihdr.component_count > 16384 {
        return Err(Error::InvalidComponentCount);
    }
    Ok(ihdr)
}

/// What a Bits Per Component box holds: one byte for each of `nc` components.
pub open spec fn bpcc_of(content: Seq<u8>, nc: u16) -> Result<Seq<u8>, Error> {
    if content.len() != nc {
        Err(Error::InvalidMarkerLength)
    } else {
        Ok(content)
    }
}

/// Reads a Bits Per Component box (T.800 §I.5.3.2).
pub fn parse_bpcc_content(content: &[u8], nc: u16) -> (r: Result<Bpcc, Error>)
    ensures
        match bpcc_of(content@, nc) {
            Ok(v) => r matches Ok(b) && b@ == v,
            Err(e) => r == Err::<Bpcc, Error>(e),
        },
{
    if content.len() != nc as usize {
        return Err(Error::InvalidMarkerLength);
    }
    assert(content@.subrange(0, content@.len() as int) =~= content@);
    Ok(Bpcc { bpci: copy_range(content, 0, content.len()) })
}

/// What a Colour Specification box holds: method, precedence and approximation, then
/// what the method calls for. Of a method that is not defined the rest is ignored.
pub open spec fn colr_of(content: Seq<u8>) -> Result<ColrView, Error> {
    if content.len() < 3 {
        Err(Error::InvalidMarkerLength)
    } else {
        let bare = ColrView {
            method: colr_method(content[0]),
            precedence: signed_byte(content[1]),
            approximation: content[2],
            enumerated: None,
            icc_profile: None,
            parameterized: None,
        };
        match bare.method {
            ColrMethod::Enumerated => if content.len() != 7 {
                Err(Error::InvalidMarkerLength)
            } else {
                Ok(ColrView { enumerated: Some(enum_cs(be32(content, 3) as u32)), ..bare })
            },
            ColrMethod::RestrictedIccProfile | ColrMethod::AnyIcc => if content.len() == 3 {
                Err(Error::InvalidMarkerLength)
            } else {
                Ok(ColrView { icc_profile: Some(content.skip(3)), ..bare })
            },
            ColrMethod::Parameterized => if content.len() != 10 {
                Err(Error::InvalidMarkerLength)
            } else {
                Ok(
                    ColrView {
                        parameterized: Some(
                            ParameterizedColour {
                                colour_primaries: be16(content, 3) as u16,
                                transfer_characteristics: be16(content, 5) as u16,
                                matrix_coefficients: be16(content, 7) as u16,
                                video_full_range: content[9] >= 0x80,
                            },
                        ),
                        ..bare
                    },
                )
            },
            ColrMethod::Reserved(_) => Ok(bare),
        }
    }
}

/// Reads a Colour Specification box (T.800 §I.5.3.3, T.814 §D.4).
pub fn parse_colr_content(content: &[u8]) -> (r: Result<Colr, Error>)
    ensures
        match colr_of(content@) {
            Ok(v) => r matches Ok(c) && c@ == v,
            Err(e) => r == Err::<Colr, Error>(e),
        },
{
    let n: usize = content.len();
    if n < 3 {
        return Err(Error::InvalidMarkerLength);
    }
    let method: ColrMethod = ColrMethod::from_byte(content[0]);
    let mut enumerated: Option<EnumCs> = None;
    let mut icc_profile: Option<Vec<u8>> = None;
    let mut parameterized: Option<ParameterizedColour> = None;
    match method {
        ColrMethod::Enumerated => {
            if n != 7 {
                return Err(Error::InvalidMarkerLength);
            }
            enumerated = Some(EnumCs::from_u32(read_be32(content, 3)));
        },
        ColrMethod::RestrictedIccProfile | ColrMethod::AnyIcc => {
            if n == 3 {
                return Err(Error::InvalidMarkerLength);
            }
            assert(content@.subrange(3, n as int) =~= content@.skip(3));
            icc_profile = Some(copy_range(content, 3, n));
        },
        ColrMethod::Parameterized => {
            if n != 10 {
                return Err(Error::InvalidMarkerLength);
            }
            parameterized = Some(
                ParameterizedColour {
                    colour_primaries: read_be16(content, 3),
                    transfer_characteristics: read_be16(content, 5),
                    matrix_coefficients: read_be16(content, 7),
                    video_full_range: content[9] >= 0x80,
                },
            );
        },
        ColrMethod::Reserved(_) => {},
    }
    Ok(
        Colr {
            method,
            precedence: read_signed_byte(content[1]),
            approximation: content[2],
            enumerated,
            icc_profile,
            parameterized,
        },
    )
}

/// The entry at `at` of a Component Mapping box.
pub open spec fn cmap_entry(content: Seq<u8>, at: int) -> CmapEntry {
    CmapEntry {
        component: be16(content, at) as u16,
        mapping: if content[at + 2] == 0 {
            CmapMapping::Direct
        } else {
            CmapMapping::Palette { column: content[at + 3] }
        },
    }
}

/// Whether an entry at `at` of a Component Mapping box is allowed: a component up to
/// 16384, mapped directly with column 0, or through a palette column.
pub open spec fn cmap_entry_allowed(content: Seq<u8>, at: int) -> bool {
    &&& be16(content, at) <= 16384
    &&& content[at + 2] == 0 && content[at + 3] == 0 || content[at + 2] == 1
}

/// What a Component Mapping box holds: at least one entry of four bytes.
pub open spec fn cmap_of(content: Seq<u8>) -> Result<Seq<CmapEntry>, Error> {
    if content.len() == 0 || content.len() % 4 != 0 || exists|i: int|
        0 <= i < content.len() / 4 && !#[trigger] cmap_entry_allowed(content, 4 * i) {
        Err(Error::InvalidMarkerLength)
    } else {
        Ok(Seq::new(content.len() / 4, |i: int| cmap_entry(content, 4 * i)))
    }
}

/// Reads a Component Mapping box (T.800 §I.5.3.5).
pub fn parse_cmap_content(content: &[u8]) -> (r: Result<Vec<CmapEntry>, Error>)
    ensures
        match cmap_of(content@) {
            Ok(v) => r matches Ok(c) && c@ == v,
            Err(e) => r == Err::<Vec<CmapEntry>, Error>(e),
        },
{
    let n: usize = content.len();
    if n == 0 || n % 4 != 0 {
        return Err(Error::InvalidMarkerLength);
    }
    let count: usize = n / 4;
    let mut entries: Vec<CmapEntry> = Vec::with_capacity(count);
    for i in 0..count
        invariant
            content@.len() == n,
            count == n / 4,
            n > 0,
            n % 4 == 0,
            entries@ == Seq::new(i as nat, |k: int| cmap_entry(content@, 4 * k)),
            forall|k: int| 0 <= k < i ==> #[trigger] cmap_entry_allowed(content@, 4 * k),
    {
        let at: usize = 4 * i;
        let component: u16 = read_be16(content, at);
        let kind: u8 = content[at + 2];
        let column: u8 = content[at + 3];
        if component > 16384 || !(kind == 0 && column == 0 || kind == 1) {
            assert(!cmap_entry_allowed(content@, 4 * (i as int)));
            return Err(Error::InvalidMarkerLength);
        }
        let mapping = if kind == 0 {
            CmapMapping::Direct
        } else {
            CmapMapping::Palette { column }
        };
        entries.push(CmapEntry { component, mapping });
    }
    Ok(entries)
}

/// The description at `at` of a Channel Definition box.
pub open spec fn channel_def(content: Seq<u8>, at: int) -> ChannelDef {
    ChannelDef {
        channel: be16(content, at) as u16,
        channel_type: be16(content, at + 2) as u16,
        association: be16(content, at + 4) as u16,
    }
}

/// Whether two descriptions claim the same: one type and one association, both given.
pub open spec fn defs_clash(a: ChannelDef, b: ChannelDef) -> bool {
    &&& a.channel_type != 0xFFFF
    &&& a.association != 0xFFFF
    &&& a.channel_type == b.channel_type
    &&& a.association == b.association
}

/// What a Channel Definition box holds: a count that is not 0 and as many descriptions
/// of six bytes, no two of which clash.
pub open spec fn cdef_of(content: Seq<u8>) -> Result<Seq<ChannelDef>, Error> {
    if content.len() < 2 {
        Err(Error::InvalidMarkerLength)
    } else {
        let n = be16(content, 0);
        let defs = Seq::new(n as nat, |i: int| channel_def(content, 2 + 6 * i));
        if n == 0 || content.len() != 2 + 6 * n || exists|i: int, j: int|
            0 <= i < j < defs.len() && #[trigger] defs_clash(defs[i], defs[j]) {
            Err(Error::InvalidMarkerLength)
        } else {
            Ok(defs)
        }
    }
}

/// Reads a Channel Definition box (T.800 §I.5.3.6).
pub fn parse_cdef_content(content: &[u8]) -> (r: Result<Vec<ChannelDef>, Error>)
    ensures
        match cdef_of(content@) {
            Ok(v) => r matches Ok(c) && c@ == v,
            Err(e) => r == Err::<Vec<ChannelDef>, Error>(e),
        },
{
    if content.len() < 2 {
        return Err(Error::InvalidMarkerLength);
    }
    let n: usize = read_be16(content, 0) as usize;
    if n == 0 || content.len() != 2 + 6 * n {
        return Err(Error::InvalidMarkerLength);
    }
    let ghost all = Seq::new(n as nat, |i: int| channel_def(content@, 2 + 6 * i));
    let mut defs: Vec<ChannelDef> = Vec::with_capacity(n);
    for i in 0..n
        invariant
            n <= 0xFFFF,
            content@.len() == 2 + 6 * n,
            defs@ == Seq::new(i as nat, |k: int| channel_def(content@, 2 + 6 * k)),
    {
        let at: usize = 2 + 6 * i;
        defs.push(
            ChannelDef {
                channel: read_be16(content, at),
                channel_type: read_be16(content, at + 2),
                association: read_be16(content, at + 4),
            },
        );
    }
    assert(defs@ =~= all);
    for i in 0..n
        invariant
            defs@ == all,
            all.len() == n,
            forall|a: int, b: int|
                0 <= a < i && a < b < all.len() ==> !#[trigger] defs_clash(all[a], all[b]),
            content@.len() == 2 + 6 * n,
            n == be16(content@, 0),
            all == Seq::new(n as nat, |k: int| channel_def(content@, 2 + 6 * k)),
    {
        let a: ChannelDef = defs[i];
        if a.channel_type != 0xFFFF && a.association != 0xFFFF {
            let mut j: usize = i + 1;
            while j < n
                invariant
                    i < j <= n,
                    defs@ == all,
                    all.len() == n,
                    a == all[i as int],
                    a.channel_type != 0xFFFF,
                    a.association != 0xFFFF,
                    forall|b: int| i < b < j ==> !#[trigger] defs_clash(all[i as int], all[b]),
                    content@.len() == 2 + 6 * n,
                    n == be16(content@, 0),
                    all == Seq::new(n as nat, |k: int| channel_def(content@, 2 + 6 * k)),
                decreases n - j,
            {
                if defs[j].channel_type == a.channel_type && defs[j].association == a.association {
                    assert(defs_clash(all[i as int], all[j as int]));
                    return Err(Error::InvalidMarkerLength);
                }
                j = j + 1;
            }
        }
    }
    Ok(defs)
}

/// What a resolution box holds: two fractions without a zero, and two exponents.
pub open spec fn grid_resolution_of(content: Seq<u8>) -> Result<GridResolution, Error> {
    if content.len() != 10 || be16(content, 0) == 0 || be16(content, 2) == 0 || be16(content, 4)
        == 0 || be16(content, 6) == 0 {
        Err(Error::InvalidMarkerLength)
    } else {
        Ok(
            GridResolution {
                vertical_numerator: be16(content, 0) as u16,
                vertical_denominator: be16(content, 2) as u16,
                horizontal_numerator: be16(content, 4) as u16,
                horizontal_denominator: be16(content, 6) as u16,
                vertical_exponent: signed_byte(content[8]),
                horizontal_exponent: signed_byte(content[9]),
            },
        )
    }
}

/// Reads a Capture or Default Display Resolution box (T.800 §I.5.3.7.1, §I.5.3.7.2).
pub fn parse_grid_resolution_content(content: &[u8]) -> (r: Result<GridResolution, Error>)
    ensures
        r == grid_resolution_of(content@),
{
    if content.len() != 10 {
        return Err(Error::InvalidMarkerLength);
    }
    let res = GridResolution {
        vertical_numerator: read_be16(content, 0),
        vertical_denominator: read_be16(content, 2),
        horizontal_numerator: read_be16(content, 4),
        horizontal_denominator: read_be16(content, 6),
        vertical_exponent: read_signed_byte(content[8]),
        horizontal_exponent: read_signed_byte(content[9]),
    };
    if res.vertical_numerator == 0 || res.vertical_denominator == 0 || res.horizontal_numerator == 0
        || res.horizontal_denominator == 0 {
        return Err(Error::InvalidMarkerLength);
    }
    Ok(res)
}

} // verus!
