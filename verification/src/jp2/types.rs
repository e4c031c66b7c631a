//! What the boxes of a JP2 file hold.
//!
//! Types with vectors have a view in which these are sequences; the parsers' contracts
//! speak of the views.
use vstd::prelude::*;

verus! {

/// Signature box `'jP  '`.
pub const BOX_TYPE_JP2_SIGNATURE: u32 = 0x6A50_2020;

/// File Type box `'ftyp'`.
pub const BOX_TYPE_FTYP: u32 = 0x6674_7970;

/// JP2 Header superbox `'jp2h'`.
pub const BOX_TYPE_JP2H: u32 = 0x6A70_3268;

/// Image Header box `'ihdr'`.
pub const BOX_TYPE_IHDR: u32 = 0x6968_6472;

/// Bits Per Component box `'bpcc'`.
pub const BOX_TYPE_BPCC: u32 = 0x6270_6363;

/// Colour Specification box `'colr'`.
pub const BOX_TYPE_COLR: u32 = 0x636F_6C72;

/// Contiguous Codestream box `'jp2c'`.
pub const BOX_TYPE_JP2C: u32 = 0x6A70_3263;

/// Palette box `'pclr'`.
pub const BOX_TYPE_PCLR: u32 = 0x7063_6C72;

/// Component Mapping box `'cmap'`.
pub const BOX_TYPE_CMAP: u32 = 0x636D_6170;

/// Channel Definition box `'cdef'`.
pub const BOX_TYPE_CDEF: u32 = 0x6364_6566;

/// Resolution superbox `'res '`.
pub const BOX_TYPE_RES: u32 = 0x7265_7320;

/// Capture Resolution box `'resc'`.
pub const BOX_TYPE_RESC: u32 = 0x7265_7363;

/// Default Display Resolution box `'resd'`.
pub const BOX_TYPE_RESD: u32 = 0x7265_7364;

/// The brand `'jp2 '` of a JP2 file (T.800 §I.5.2).
pub const BRAND_JP2: u32 = 0x6A70_3220;

/// The brand `'jph '` of a high-throughput file (T.814 §D.3).
pub const BRAND_JPH: u32 = 0x6A70_6820;

/// What the Signature box holds (T.800 §I.5.1).
pub const JP2_SIGNATURE_MAGIC: [u8; 4] = [0x0D, 0x0A, 0x87, 0x0A];

/// A Signature box. There is nothing in it that could vary.
#[derive(Debug, Clone, Copy, PartialEq, Eq, Default)]
pub struct Jp2SignatureBox;

/// A File Type box (T.800 §I.5.2).
#[derive(Debug, Clone, PartialEq, Eq)]
pub struct Ftyp {
    /// The brand.
    pub brand: u32,
    /// The minor version.
    pub minor_version: u32,
    /// The brands with which the file is compatible, in order.
    pub compatibility: Vec<u32>,
}

/// A File Type box, as values.
pub struct FtypView {
    pub brand: u32,
    pub minor_version: u32,
    pub compatibility: Seq<u32>,
}

impl View for Ftyp {
    type V = FtypView;

    open spec fn view(&self) -> FtypView {
        FtypView {
            brand: self.brand,
            minor_version: self.minor_version,
            compatibility: self.compatibility@,
        }
    }
}

/// Whether `v` is among `s`.
fn contains_u32(s: &Vec<u32>, v: u32) -> (b: bool)
    ensures
        b == s@.contains(v),
{
    let mut i: usize = 0;
    while i < s.len()
        invariant
            i <= s@.len(),
            forall|k: int| 0 <= k < i ==> s@[k] != v,
        decreases s@.len() - i,
    {
        if s[i] == v {
            return true;
        }
        i = i + 1;
    }
    false
}

impl Ftyp {
    /// Whether the compatibility list names `'jp2 '`.
    pub fn is_jp2_compatible(&self) -> (b: bool)
        ensures
            b == self@.compatibility.contains(BRAND_JP2),
    {
        contains_u32(&self.compatibility, BRAND_JP2)
    }

    /// Whether the compatibility list names `'jph '`.
    pub fn is_jph_compatible(&self) -> (b: bool)
        ensures
            b == self@.compatibility.contains(BRAND_JPH),
    {
        contains_u32(&self.compatibility, BRAND_JPH)
    }
}

/// An Image Header box (T.800 §I.5.3.1).
#[derive(Debug, Clone, Copy, PartialEq, Eq, Structural)]
pub struct Ihdr {
    /// Height of the image area.
    pub height: u32,
    /// Width of the image area.
    pub width: u32,
    /// Number of components.
    pub component_count: u16,
    /// Bit depth less one in the low seven bits, signedness in the top bit; `0xFF`
    /// where the components differ.
    pub bpc: u8,
    /// Compression type.
    pub compression: u8,
    /// Whether the colourspace is unknown.
    pub colourspace_unknown: u8,
    /// Whether the file holds intellectual property information.
    pub ipr: u8,
}

impl Ihdr {
    /// Whether the components differ in bit depth.
    pub fn varies_in_bit_depth(&self) -> (b: bool)
        ensures
            b == (self.bpc == 0xFF),
    {
        self.bpc == 0xFF
    }

    /// The bit depth that the low seven bits give; without meaning where the components
    /// differ.
    pub fn bit_depth(&self) -> (d: u8)
        ensures
            d == self.bpc % 0x80 + 1,
    {
        self.bpc % 0x80 + 1
    }

    /// Whether the top bit says that the components are signed.
    pub fn is_signed(&self) -> (b: bool)
        ensures
            b == (self.bpc >= 0x80),
    {
        self.bpc >= 0x80
    }
}

/// A Bits Per Component box (T.800 §I.5.3.2).
#[derive(Debug, Clone, PartialEq, Eq)]
pub struct Bpcc {
    /// One byte per component, laid out as [`Ihdr::bpc`].
    pub bpci: Vec<u8>,
}

impl View for Bpcc {
    type V = Seq<u8>;

    open spec fn view(&self) -> Seq<u8> {
        self.bpci@
    }
}

/// How a Colour Specification box names a colourspace (T.800 §I.5.3.3, T.814 §D.4).
#[derive(Debug, Clone, Copy, PartialEq, Eq, Structural)]
pub enum ColrMethod {
    /// By number.
    Enumerated,
    /// By a restricted ICC profile.
    RestrictedIccProfile,
    /// By any ICC profile.
    AnyIcc,
    /// By code points of H.273.
    Parameterized,
    /// In a way that is not defined.
    Reserved(u8),
}

/// The method that a byte names.
pub open spec fn colr_method(b: u8) -> ColrMethod {
    if b == 1 {
        ColrMethod::Enumerated
    } else if b == 2 {
        ColrMethod::RestrictedIccProfile
    } else if b == 3 {
        ColrMethod::AnyIcc
    } else if b == 5 {
        ColrMethod::Parameterized
    } else {
        ColrMethod::Reserved(b)
    }
}

impl ColrMethod {
    /// The method that a byte names.
    pub fn from_byte(b: u8) -> (m: Self)
        ensures
            m == colr_method(b),
    {
        match b {
            1 => ColrMethod::Enumerated,
            2 => ColrMethod::RestrictedIccProfile,
            3 => ColrMethod::AnyIcc,
            5 => ColrMethod::Parameterized,
            other => ColrMethod::Reserved(other),
        }
    }
}

/// A colourspace given by code points of H.273 (T.814 §D.4.3).
#[derive(Debug, Clone, Copy, PartialEq, Eq, Structural)]
pub struct ParameterizedColour {
    /// `ColourPrimaries`.
    pub colour_primaries: u16,
    /// `TransferCharacteristics`.
    pub transfer_characteristics: u16,
    /// `MatrixCoefficients`.
    pub matrix_coefficients: u16,
    /// `VideoFullRangeFlag`.
    pub video_full_range: bool,
}

/// A colourspace given by number (T.800 Table I.10).
#[derive(Debug, Clone, Copy, PartialEq, Eq, Structural)]
pub enum EnumCs {
    /// 16: sRGB.
    Srgb,
    /// 17: greyscale.
    Greyscale,
    /// 18: sYCC.
    Sycc,
    /// A number that is not defined.
    Reserved(u32),
}

/// The colourspace that a number names.
pub open spec fn enum_cs(v: u32) -> EnumCs {
    if v == 16 {
        EnumCs::Srgb
    } else if v == 17 {
        EnumCs::Greyscale
    } else if v == 18 {
        EnumCs::Sycc
    } else {
        EnumCs::Reserved(v)
    }
}

impl EnumCs {
    /// The colourspace that a number names.
    pub fn from_u32(v: u32) -> (c: Self)
        ensures
            c == enum_cs(v),
    {
        match v {
            16 => EnumCs::Srgb,
            17 => EnumCs::Greyscale,
            18 => EnumCs::Sycc,
            other => EnumCs::Reserved(other),
        }
    }
}

/// The contents of an optional vector.
pub open spec fn opt_seq<T>(o: Option<Vec<T>>) -> Option<Seq<T>> {
    match o {
        Some(v) => Some(v@),
        None => None,
    }
}

/// A Colour Specification box (T.800 §I.5.3.3).
#[derive(Debug, Clone, PartialEq, Eq)]
pub struct Colr {
    /// How the colourspace is named.
    pub method: ColrMethod,
    /// Precedence; readers ignore it.
    pub precedence: i8,
    /// Approximation; readers ignore it.
    pub approximation: u8,
    /// The number, where the method is [`ColrMethod::Enumerated`].
    pub enumerated: Option<EnumCs>,
    /// The ICC profile, where the method is one of those with a profile.
    pub icc_profile: Option<Vec<u8>>,
    /// The code points, where the method is [`ColrMethod::Parameterized`].
    pub parameterized: Option<ParameterizedColour>,
}

/// A Colour Specification box, as values.
pub struct ColrView {
    pub method: ColrMethod,
    pub precedence: i8,
    pub approximation: u8,
    pub enumerated: Option<EnumCs>,
    pub icc_profile: Option<Seq<u8>>,
    pub parameterized: Option<ParameterizedColour>,
}

impl View for Colr {
    type V = ColrView;

    open spec fn view(&self) -> ColrView {
        ColrView {
            method: self.method,
            precedence: self.precedence,
            approximation: self.approximation,
            enumerated: self.enumerated,
            icc_profile: opt_seq(self.icc_profile),
            parameterized: self.parameterized,
        }
    }
}

/// One column of a palette (T.800 §I.5.3.4).
#[derive(Debug, Clone, PartialEq, Eq)]
pub struct PclrColumn {
    /// Bit depth of the values, 1 to 38.
    pub bit_depth: u8,
    /// Whether the values are signed.
    pub signed: bool,
    /// The values.
    pub values: Vec<i32>,
}

/// One column of a palette, as values.
pub struct ColumnView {
    pub bit_depth: u8,
    pub signed: bool,
    pub values: Seq<i32>,
}

impl View for PclrColumn {
    type V = ColumnView;

    open spec fn view(&self) -> ColumnView {
        ColumnView { bit_depth: self.bit_depth, signed: self.signed, values: self.values@ }
    }
}

/// A Palette box (T.800 §I.5.3.4).
#[derive(Debug, Clone, PartialEq, Eq)]
pub struct Pclr {
    /// The columns, each with the same number of values.
    pub columns: Vec<PclrColumn>,
}

/// Columns, as values.
pub open spec fn column_views(s: Seq<PclrColumn>) -> Seq<ColumnView> {
    Seq::new(s.len(), |i: int| s[i]@)
}

impl View for Pclr {
    type V = Seq<ColumnView>;

    open spec fn view(&self) -> Seq<ColumnView> {
        column_views(self.columns@)
    }
}

impl Pclr {
    /// The number of entries: that of the first column, or none.
    pub fn entries(&self) -> (n: usize)
        ensures
            n == if self@.len() == 0 {
                0
            } else {
                self@[0].values.len()
            },
    {
        if self.columns.len() == 0 {
            0
        } else {
            self.columns[0].values.len()
        }
    }
}

/// How a channel is made from a component (T.800 §I.5.3.5).
#[derive(Debug, Clone, Copy, PartialEq, Eq, Structural)]
pub enum CmapMapping {
    /// The channel is the component.
    Direct,
    /// The component's samples select values of a palette column.
    Palette {
        /// The column.
        column: u8,
    },
}

/// One channel of a Component Mapping box.
#[derive(Debug, Clone, Copy, PartialEq, Eq, Structural)]
pub struct CmapEntry {
    /// The component.
    pub component: u16,
    /// How the channel is made from it.
    pub mapping: CmapMapping,
}

/// One description of a Channel Definition box (T.800 §I.5.3.6).
#[derive(Debug, Clone, Copy, PartialEq, Eq, Structural)]
pub struct ChannelDef {
    /// The channel.
    pub channel: u16,
    /// What kind of data it holds.
    pub channel_type: u16,
    /// The colour to which it belongs, from 1; 0 for the whole image, `0xFFFF` for none.
    pub association: u16,
}

impl ChannelDef {
    /// Colour.
    pub const TYPE_COLOUR: u16 = 0;

    /// Opacity.
    pub const TYPE_OPACITY: u16 = 1;

    /// Premultiplied opacity.
    pub const TYPE_PREMULTIPLIED_OPACITY: u16 = 2;

    /// Not specified.
    pub const TYPE_UNSPECIFIED: u16 = 0xFFFF;
}

/// A resolution in reference grid points per metre (T.800 §I.5.3.7): numerator over
/// denominator, times a power of ten.
#[derive(Debug, Clone, Copy, PartialEq, Eq, Structural)]
pub struct GridResolution {
    /// Vertical numerator.
    pub vertical_numerator: u16,
    /// Vertical denominator.
    pub vertical_denominator: u16,
    /// Horizontal numerator.
    pub horizontal_numerator: u16,
    /// Horizontal denominator.
    pub horizontal_denominator: u16,
    /// Vertical exponent.
    pub vertical_exponent: i8,
    /// Horizontal exponent.
    pub horizontal_exponent: i8,
}

/// A Resolution superbox (T.800 §I.5.3.7); at least one is there.
#[derive(Debug, Clone, Copy, PartialEq, Eq, Structural)]
pub struct Resolution {
    /// The resolution at capture.
    pub capture: Option<GridResolution>,
    /// The resolution for display.
    pub display: Option<GridResolution>,
}

/// A JP2 Header superbox (T.800 §I.5.3).
#[derive(Debug, Clone, PartialEq, Eq)]
pub struct Jp2Header {
    /// The Image Header box.
    pub ihdr: Ihdr,
    /// The Bits Per Component box.
    pub bpcc: Option<Bpcc>,
    /// The Colour Specification boxes, in order.
    pub colr: Vec<Colr>,
    /// The Palette box; there with [`Self::cmap`] only.
    pub pclr: Option<Pclr>,
    /// The channels of the Component Mapping box.
    pub cmap: Option<Vec<CmapEntry>>,
    /// The descriptions of the Channel Definition box.
    pub cdef: Option<Vec<ChannelDef>>,
    /// The Resolution superbox.
    pub resolution: Option<Resolution>,
}

/// A JP2 Header superbox, as values.
pub struct HeaderView {
    pub ihdr: Ihdr,
    pub bpcc: Option<Seq<u8>>,
    pub colr: Seq<ColrView>,
    pub pclr: Option<Seq<ColumnView>>,
    pub cmap: Option<Seq<CmapEntry>>,
    pub cdef: Option<Seq<ChannelDef>>,
    pub resolution: Option<Resolution>,
}

/// Colour Specification boxes, as values.
pub open spec fn colr_views(s: Seq<Colr>) -> Seq<ColrView> {
    Seq::new(s.len(), |i: int| s[i]@)
}

/// The view of an optional Bits Per Component box.
pub open spec fn bpcc_view(o: Option<Bpcc>) -> Option<Seq<u8>> {
    match o {
        Some(b) => Some(b@),
        None => None,
    }
}

/// The view of an optional Palette box.
pub open spec fn pclr_view(o: Option<Pclr>) -> Option<Seq<ColumnView>> {
    match o {
        Some(p) => Some(p@),
        None => None,
    }
}

impl View for Jp2Header {
    type V = HeaderView;

    open spec fn view(&self) -> HeaderView {
        HeaderView {
            ihdr: self.ihdr,
            bpcc: bpcc_view(self.bpcc),
            colr: colr_views(self.colr@),
            pclr: pclr_view(self.pclr),
            cmap: opt_seq(self.cmap),
            cdef: opt_seq(self.cdef),
            resolution: self.resolution,
        }
    }
}

/// What [`crate::jp2::parse_jp2`] finds in a file.
#[derive(Debug, Clone, PartialEq, Eq)]
pub struct Jp2Container {
    /// The File Type box.
    pub ftyp: Ftyp,
    /// The JP2 Header superbox.
    pub header: Jp2Header,
    /// Where the first codestream begins in the file.
    pub codestream_offset: usize,
    /// How long it is.
    pub codestream_len: usize,
}

/// A container, as values.
pub struct ContainerView {
    pub ftyp: FtypView,
    pub header: HeaderView,
    pub codestream_offset: int,
    pub codestream_len: int,
}

impl View for Jp2Container {
    type V = ContainerView;

    open spec fn view(&self) -> ContainerView {
        ContainerView {
            ftyp: self.ftyp@,
            header: self.header@,
            codestream_offset: self.codestream_offset as int,
            codestream_len: self.codestream_len as int,
        }
    }
}

} // verus!
