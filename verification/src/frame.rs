//! Packed frames: images whose components are interleaved, pixel by pixel, in one plane.
use vstd::prelude::*;

use crate::image::{ComponentView, DecodedComponent, DecodedImage, ImageView};

pub mod laws;
pub mod unpack;

pub use crate::frame::unpack::{check_plane, infer_format, unpack_plane};

verus! {

/// A packed layout. Samples of more than eight bits take two bytes, the low one first.
#[derive(Debug, Clone, Copy, PartialEq, Eq, Structural)]
pub enum PackedFormat {
    /// One component of 8 bits.
    Gray8,
    /// Red, green, blue.
    Rgb24,
    /// Blue, green, red.
    Bgr24,
    /// Red, green, blue, opacity.
    Rgba,
    /// Blue, green, red, opacity.
    Bgra,
    /// One component of 16 bits.
    Gray16Le,
    /// One component of 10 bits.
    Gray10Le,
    /// One component of 12 bits.
    Gray12Le,
    /// Red, green, blue of 16 bits.
    Rgb48Le,
    /// Red, green, blue, opacity of 16 bits.
    Rgba64Le,
}

/// What a layout means: the number of components, the bytes of a sample, its bit depth,
/// and at which place of a pixel each component stands.
#[derive(Debug, Clone, Copy, PartialEq, Eq, Structural)]
pub struct Layout {
    /// Number of components.
    pub components: usize,
    /// Bytes of a sample.
    pub bytes: usize,
    /// Bit depth of a sample.
    pub depth: u8,
    /// Whether the first and the third component change places.
    pub swapped: bool,
}

impl Layout {
    /// At which place of a pixel component `c` stands.
    pub open spec fn place(self, c: int) -> int {
        if self.swapped && c == 0 {
            2
        } else if self.swapped && c == 2 {
            0
        } else {
            c
        }
    }

    /// At which place of a pixel component `c` stands.
    pub(crate) fn place_of(&self, c: usize) -> (p: usize)
        ensures
            p == self.place(c as int),
    {
        if self.swapped && c == 0 {
            2
        } else if self.swapped && c == 2 {
            0
        } else {
            c
        }
    }
}

/// What a layout means.
pub open spec fn layout_of(f: PackedFormat) -> Layout {
    match f {
        PackedFormat::Gray8 => Layout { components: 1, bytes: 1, depth: 8, swapped: false },
        PackedFormat::Rgb24 => Layout { components: 3, bytes: 1, depth: 8, swapped: false },
        PackedFormat::Bgr24 => Layout { components: 3, bytes: 1, depth: 8, swapped: true },
        PackedFormat::Rgba => Layout { components: 4, bytes: 1, depth: 8, swapped: false },
        PackedFormat::Bgra => Layout { components: 4, bytes: 1, depth: 8, swapped: true },
        PackedFormat::Gray16Le => Layout { components: 1, bytes: 2, depth: 16, swapped: false },
        PackedFormat::Gray10Le => Layout { components: 1, bytes: 2, depth: 10, swapped: false },
        PackedFormat::Gray12Le => Layout { components: 1, bytes: 2, depth: 12, swapped: false },
        PackedFormat::Rgb48Le => Layout { components: 3, bytes: 2, depth: 16, swapped: false },
        PackedFormat::Rgba64Le => Layout { components: 4, bytes: 2, depth: 16, swapped: false },
    }
}

impl PackedFormat {
    /// What the layout means.
    pub fn layout(self) -> (l: Layout)
        ensures
            l == layout_of(self),
    {
        match self {
            PackedFormat::Gray8 => Layout { components: 1, bytes: 1, depth: 8, swapped: false },
            PackedFormat::Rgb24 => Layout { components: 3, bytes: 1, depth: 8, swapped: false },
            PackedFormat::Bgr24 => Layout { components: 3, bytes: 1, depth: 8, swapped: true },
            PackedFormat::Rgba => Layout { components: 4, bytes: 1, depth: 8, swapped: false },
            PackedFormat::Bgra => Layout { components: 4, bytes: 1, depth: 8, swapped: true },
            PackedFormat::Gray16Le => Layout { components: 1, bytes: 2, depth: 16, swapped: false },
            PackedFormat::Gray10Le => Layout { components: 1, bytes: 2, depth: 10, swapped: false },
            PackedFormat::Gray12Le => Layout { components: 1, bytes: 2, depth: 12, swapped: false },
            PackedFormat::Rgb48Le => Layout { components: 3, bytes: 2, depth: 16, swapped: false },
            PackedFormat::Rgba64Le => Layout { components: 4, bytes: 2, depth: 16, swapped: false },
        }
    }
}

/// The layout for so many components of a bit depth.
pub open spec fn format_for(components: nat, depth: u8) -> Option<PackedFormat> {
    if depth <= 8 {
        if components == 1 {
            Some(PackedFormat::Gray8)
        } else if components == 3 {
            Some(PackedFormat::Rgb24)
        } else if components == 4 {
            Some(PackedFormat::Rgba)
        } else {
            None
        }
    } else if depth <= 16 {
        if components == 1 && depth == 10 {
            Some(PackedFormat::Gray10Le)
        } else if components == 1 && depth == 12 {
            Some(PackedFormat::Gray12Le)
        } else if components == 1 {
            Some(PackedFormat::Gray16Le)
        } else if components == 3 {
            Some(PackedFormat::Rgb48Le)
        } else if components == 4 {
            Some(PackedFormat::Rgba64Le)
        } else {
            None
        }
    } else {
        None
    }
}

/// Finds the layout for so many components of a bit depth.
fn choose_format(components: usize, depth: u8) -> (f: Option<PackedFormat>)
    ensures
        f == format_for(components as nat, depth),
{
    match (components, depth <= 8, depth <= 16) {
        (1, true, _) => Some(PackedFormat::Gray8),
        (3, true, _) => Some(PackedFormat::Rgb24),
        (4, true, _) => Some(PackedFormat::Rgba),
        (1, false, true) => Some(
            if depth == 10 {
                PackedFormat::Gray10Le
            } else if depth == 12 {
                PackedFormat::Gray12Le
            } else {
                PackedFormat::Gray16Le
            },
        ),
        (3, false, true) => Some(PackedFormat::Rgb48Le),
        (4, false, true) => Some(PackedFormat::Rgba64Le),
        _ => None,
    }
}

/// Why an image cannot be packed, or a frame not be used.
#[derive(Debug, Clone, Copy, PartialEq, Eq, Structural)]
pub enum FrameError {
    /// The image has no components.
    NoComponents,
    /// There is no layout for so many components of this bit depth.
    NoFormat {
        /// Number of components.
        components: usize,
        /// Bit depth of the first one.
        depth: u8,
    },
    /// The components differ in bit depth or size, or are signed.
    NotUniform,
    /// The layout of a frame cannot be told from its stride.
    UnknownFormat,
    /// The frame is smaller than its size calls for.
    PlaneTooSmall,
    /// A sample does not fit its bit depth.
    SampleTooLarge {
        /// The sample.
        value: u16,
        /// The bit depth.
        depth: u8,
    },
}

/// A packed frame.
#[derive(Debug, Clone, PartialEq, Eq)]
pub struct PackedFrame {
    /// The layout.
    pub format: PackedFormat,
    /// Width in pixels.
    pub width: u32,
    /// Height in pixels.
    pub height: u32,
    /// Bytes from row to row.
    pub stride: usize,
    /// The pixels, row by row.
    pub data: Vec<u8>,
}

/// Whether a component is one that can be packed at a size and bit depth.
pub open spec fn component_fits(c: ComponentView, width: u32, height: u32, depth: u8) -> bool {
    c.precision_bits == depth && !c.is_signed && c.width == width && c.height == height
}

/// The layout in which an image is packed, or why it cannot be.
pub open spec fn packed_format(image: ImageView) -> Result<PackedFormat, FrameError> {
    let n = image.components.len();
    if n == 0 {
        Err(FrameError::NoComponents)
    } else {
        let depth = image.components[0].precision_bits;
        match format_for(n, depth) {
            None => Err(FrameError::NoFormat { components: n as usize, depth }),
            Some(f) => if forall|i: int|
                0 <= i < n ==> component_fits(
                    #[trigger] image.components[i],
                    image.width,
                    image.height,
                    depth,
                ) {
                Ok(f)
            } else {
                Err(FrameError::NotUniform)
            },
        }
    }
}

/// A sample brought into the range of its bytes.
pub open spec fn stored(v: i32, bytes: int) -> int {
    let top = if bytes == 1 {
        0xFF
    } else {
        0xFFFFint
    };
    if v < 0 {
        0
    } else if v > top {
        top
    } else {
        v as int
    }
}

/// Byte `p` of the pixels of an image with samples of `bytes` bytes: the samples of
/// each pixel in turn, each with its low byte first. Where a component has no sample,
/// it is 0.
pub open spec fn packed_byte(image: ImageView, bytes: int, p: int) -> u8 {
    let n = image.components.len() as int;
    let sample = p / bytes;
    let c = image.components[sample % n];
    let i = sample / n;
    let v = if i < c.samples.len() {
        stored(c.samples[i], bytes)
    } else {
        0
    };
    if p % bytes == 0 {
        (v % 0x100) as u8
    } else {
        (v / 0x100) as u8
    }
}

/// The number of pixels of an image.
pub open spec fn pixel_count(image: ImageView) -> nat {
    image.width as nat * image.height as nat
}

/// Where an image can be packed, no component has more samples than there are pixels, and
/// the pixels fit the address space.
pub open spec fn well_sized(image: ImageView) -> bool {
    packed_format(image) matches Ok(f) ==> {
        let l = layout_of(f);
        &&& pixel_count(image) * l.components * l.bytes <= usize::MAX
        &&& image.width * l.components * l.bytes <= usize::MAX
        &&& forall|i: int|
            0 <= i < image.components.len() ==> (#[trigger] image.components[i]).samples.len()
                <= pixel_count(image)
    }
}

/// The pixels of a packed image.
pub open spec fn packed_data(image: ImageView, l: Layout) -> Seq<u8> {
    Seq::new(
        pixel_count(image) * l.components as nat * l.bytes as nat,
        |k: int| packed_byte(image, l.bytes as int, k),
    )
}

/// Whether a frame is an image in a layout, without gaps between the rows.
pub open spec fn holds_image(p: PackedFrame, image: ImageView, f: PackedFormat) -> bool {
    let l = layout_of(f);
    &&& p.format == f
    &&& p.width == image.width
    &&& p.height == image.height
    &&& p.stride == image.width * l.components * l.bytes
    &&& p.data@ == packed_data(image, l)
}

/// Checks that all components can be packed at a size and bit depth.
fn all_fit(components: &Vec<DecodedComponent>, width: u32, height: u32, depth: u8) -> (b: bool)
    ensures
        b == forall|i: int|
            0 <= i < components@.len() ==> component_fits(
                #[trigger] components@[i]@,
                width,
                height,
                depth,
            ),
{
    let mut i: usize = 0;
    while i < components.len()
        invariant
            i <= components@.len(),
            forall|k: int|
                0 <= k < i ==> component_fits(#[trigger] components@[k]@, width, height, depth),
        decreases components@.len() - i,
    {
        let c: &DecodedComponent = &components[i];
        if c.precision_bits != depth || c.is_signed || c.width != width || c.height != height {
            assert(!component_fits(components@[i as int]@, width, height, depth));
            return false;
        }
        i = i + 1;
    }
    true
}

/// Brings a sample into the range of its bytes.
fn store(v: i32, bytes: usize) -> (s: u16)
    requires
        bytes == 1 || bytes == 2,
    ensures
        s == stored(v, bytes as int),
        bytes == 1 ==> s <= 0xFF,
{
    let top: i32 = if bytes == 1 {
        0xFF
    } else {
        0xFFFF
    };
    if v < 0 {
        0
    } else if v > top {
        top as u16
    } else {
        v as u16
    }
}

/// Where a byte of a sample stands.
pub proof fn lemma_byte_place(i: int, c: int, n: int, b: int, bytes: int) -> (p: int)
    requires
        0 <= i,
        0 <= c < n,
        0 <= b < bytes,
    ensures
        p == (i * n + c) * bytes + b,
        0 <= p,
        p % bytes == b,
        p / bytes == i * n + c,
        (p / bytes) % n == c,
        (p / bytes) / n == i,
{
    let q = i * n + c;
    assert(0 <= q) by (nonlinear_arith)
        requires
            0 <= i,
            0 <= c,
            0 < n,
            q == i * n + c,
    ;
    let p = q * bytes + b;
    assert(0 <= p) by (nonlinear_arith)
        requires
            0 <= q,
            0 <= b < bytes,
            p == q * bytes + b,
    ;
    vstd::arithmetic::div_mod::lemma_fundamental_div_mod_converse(p, bytes, q, b);
    vstd::arithmetic::div_mod::lemma_fundamental_div_mod_converse(q, n, i, c);
    p
}

/// Chooses the layout in which an image is packed.
fn frame_format(image: &DecodedImage) -> (r: Result<PackedFormat, FrameError>)
    ensures
        r == packed_format(image@),
{
    let n: usize = image.components.len();
    if n == 0 {
        return Err(FrameError::NoComponents);
    }
    let depth: u8 = image.components[0].precision_bits;
    let format: PackedFormat = match choose_format(n, depth) {
        Some(f) => f,
        None => {
            return Err(FrameError::NoFormat { components: n, depth });
        },
    };
    let ghost views = image@.components;
    if !all_fit(&image.components, image.width, image.height, depth) {
        proof {
            let i = choose|i: int|
                0 <= i < image.components@.len() && !component_fits(
                    #[trigger] image.components@[i]@,
                    image.width,
                    image.height,
                    depth,
                );
            assert(!component_fits(views[i], image.width, image.height, depth));
        }
        return Err(FrameError::NotUniform);
    }
    proof {
        assert forall|i: int| 0 <= i < n implies component_fits(
            #[trigger] views[i],
            image.width,
            image.height,
            depth,
        ) by {
            assert(component_fits(image.components@[i]@, image.width, image.height, depth));
        }
    }
    Ok(format)
}

/// Whether [`image_to_frame`] can take an image.
pub fn is_well_sized(image: &DecodedImage) -> (b: bool)
    ensures
        b == well_sized(image@),
{
    let format: PackedFormat = match frame_format(image) {
        Ok(f) => f,
        Err(_) => {
            return true;
        },
    };
    let layout: Layout = format.layout();
    let per_pixel: u128 = (layout.components * layout.bytes) as u128;
    proof {
        assert(0 <= image.width * image.height <= 0xFFFF_FFFF * 0xFFFF_FFFF) by (nonlinear_arith)
            requires
                0 <= image.width <= 0xFFFF_FFFF,
                0 <= image.height <= 0xFFFF_FFFF,
        ;
        let w = image.width as int;
        let px = pixel_count(image@) as int;
        let c = layout.components as int;
        let y = layout.bytes as int;
        assert(px * c * y == px * (c * y) && w * c * y == w * (c * y)) by (nonlinear_arith);
        assert(c * y <= 8) by (nonlinear_arith)
            requires
                1 <= c <= 4,
                1 <= y <= 2,
        ;
        assert(px * per_pixel <= px * 8 && w * per_pixel <= w * 8) by (nonlinear_arith)
            requires
                0 <= px,
                0 <= w,
                per_pixel <= 8,
        ;
    }
    let pixels: u128 = image.width as u128 * image.height as u128;
    if pixels * per_pixel > usize::MAX as u128 || image.width as u128 * per_pixel
        > usize::MAX as u128 {
        return false;
    }
    let mut i: usize = 0;
    while i < image.components.len()
        invariant
            i <= image.components@.len(),
            pixels == pixel_count(image@),
            packed_format(image@) is Ok,
            forall|k: int|
                0 <= k < i ==> (#[trigger] image@.components[k]).samples.len() <= pixels,
        decreases image.components@.len() - i,
    {
        let count: usize = image.components[i].samples.len();
        assert(image@.components[i as int].samples.len() == count);
        if count as u128 > pixels {
            return false;
        }
        i = i + 1;
    }
    true
}

/// Packs an image into one plane: components of up to 8 bits one byte each, of 9 to 16
/// bits two bytes each.
pub fn image_to_frame(image: &DecodedImage) -> (r: Result<PackedFrame, FrameError>)
    requires
        well_sized(image@),
    ensures
        match packed_format(image@) {
            Err(e) => r == Err::<PackedFrame, FrameError>(e),
            Ok(f) => r matches Ok(p) && holds_image(p, image@, f),
        },
{
    let format: PackedFormat = match frame_format(image) {
        Ok(f) => f,
        Err(e) => {
            return Err(e);
        },
    };
    let n: usize = image.components.len();
    let ghost views = image@.components;
    let layout: Layout = format.layout();
    let bytes: usize = layout.bytes;
    let ghost pixels = pixel_count(image@) as int;
    let ghost total = pixels * n * bytes;
    let ghost goal = Seq::new(total as nat, |k: int| packed_byte(image@, bytes as int, k));
    proof {
        assert(n <= 4 && bytes <= 2 && layout.components == n);
        let w = image.width as int;
        assert(total <= usize::MAX && w * n * bytes <= usize::MAX);
        assert(pixels <= pixels * n * bytes && w * n <= w * n * bytes) by (nonlinear_arith)
            requires
                0 <= pixels,
                0 <= w,
                1 <= n,
                1 <= bytes,
        ;
        assert(0 * n * bytes == 0) by (nonlinear_arith);
        assert(0 <= total) by (nonlinear_arith)
            requires
                0 <= pixels,
                1 <= n,
                1 <= bytes,
                total == pixels * n * bytes,
        ;
    }
    let count: usize = image.width as usize * image.height as usize;
    let stride: usize = image.width as usize * n * bytes;
    let mut data: Vec<u8> = Vec::new();
    for i in 0..count
        invariant
            n == image.components@.len(),
            n == image@.components.len(),
            views == image@.components,
            1 <= n <= 4,
            1 <= bytes <= 2,
            count == pixels,
            total == pixels * n * bytes,
            goal == Seq::new(total as nat, |k: int| packed_byte(image@, bytes as int, k)),
            data@ == goal.take(i * n * bytes),
            i * n * bytes <= total,
    {
        assert((i + 1) * n * bytes <= total) by (nonlinear_arith)
            requires
                i + 1 <= pixels,
                total == pixels * n * bytes,
                1 <= n,
                1 <= bytes,
        ;
        assert((i + 1) * n * bytes == (i * n + n) * bytes) by (nonlinear_arith);
        assert(i * n * bytes == (i * n + 0) * bytes) by (nonlinear_arith);
        for c in 0..n
            invariant
                i < count,
                n == image.components@.len(),
                n == image@.components.len(),
                views == image@.components,
                1 <= n <= 4,
                1 <= bytes <= 2,
                total == pixels * n * bytes,
                (i * n + n) * bytes <= total,
                goal == Seq::new(total as nat, |k: int| packed_byte(image@, bytes as int, k)),
                data@ == goal.take((i * n + c) * bytes),
        {
            let samples: &Vec<i32> = &image.components[c].samples;
            let v: u16 = if i < samples.len() {
                store(samples[i], bytes)
            } else {
                0
            };
            proof {
                let p = lemma_byte_place(i as int, c as int, n as int, 0, bytes as int);
                assert(p + bytes <= (i * n + n) * bytes) by (nonlinear_arith)
                    requires
                        p == (i * n + c) * bytes + 0,
                        c + 1 <= n,
                        0 < bytes,
                ;
                assert(goal[p] == (v % 0x100) as u8);
                assert(goal.take(p + 1) =~= goal.take(p).push(goal[p]));
                if bytes == 2 {
                    let s = lemma_byte_place(i as int, c as int, n as int, 1, bytes as int);
                    assert(goal[s] == (v / 0x100) as u8);
                    assert(goal.take(s + 1) =~= goal.take(s).push(goal[s]));
                }
                assert((i * n + (c + 1)) * bytes == (i * n + c) * bytes + bytes)
                    by (nonlinear_arith);
            }
            data.push((v % 0x100) as u8);
            if bytes == 2 {
                data.push((v / 0x100) as u8);
            }
        }
    }
    assert(data@ =~= goal);
    assert(total == pixels as nat * layout.components as nat * layout.bytes as nat);
    Ok(PackedFrame { format, width: image.width, height: image.height, stride, data })
}

} // verus!
