//! Where the samples of an image stand in a frame, and which images and frames there are.
use vstd::arithmetic::power2::pow2;
use vstd::prelude::*;

use crate::frame::unpack::{
    first_excess, format_of_stride, plane_of, sample_at, unpack_refused,
};
use crate::frame::{
    holds_image, layout_of, lemma_byte_place, packed_data, packed_format, pixel_count, FrameError,
    Layout, PackedFormat, PackedFrame,
};
use crate::image::{DecodedComponent, DecodedImage, ImageView};

verus! {

/// A sample of component `c` brought into the range from 0 to `top`; 0 where there is none.
pub open spec fn clamped(image: ImageView, c: int, i: int, top: int) -> int {
    let samples = image.components[c].samples;
    if i >= samples.len() || samples[i] < 0 {
        0
    } else if samples[i] > top {
        top
    } else {
        samples[i] as int
    }
}

/// Place of a sample among the bytes.
proof fn lemma_in_range(i: int, c: int, n: int, b: int, pixels: int)
    requires
        0 <= i < pixels,
        0 <= c < n,
        1 <= b,
    ensures
        0 <= (i * n + c) * b,
        (i * n + c) * b + b <= pixels * n * b,
{
    assert(0 <= i * n && i * n + c + 1 <= pixels * n) by (nonlinear_arith)
        requires
            0 <= i < pixels,
            0 <= c < n,
    ;
    assert(0 <= (i * n + c) * b && (i * n + c) * b + b <= pixels * n * b) by (nonlinear_arith)
        requires
            0 <= i * n + c,
            i * n + c + 1 <= pixels * n,
            1 <= b,
    ;
}

/// Samples of more than 8 bits take two bytes, the low byte first, whatever the number of
/// components: those of a pixel stand together, in the order of the components, pixel after
/// pixel.
pub proof fn law_two_byte_samples(image: ImageView, f: PackedFormat, i: int, c: int)
    requires
        packed_format(image) == Ok::<PackedFormat, FrameError>(f),
        image.components[0].precision_bits > 8,
        0 <= i < image.width * image.height,
        0 <= c < image.components.len(),
    ensures
        ({
            let data = packed_data(image, layout_of(f));
            let n = image.components.len();
            let v = clamped(image, c, i, 65535);
            &&& data.len() == image.width * image.height * n * 2
            &&& 0 <= (i * n + c) * 2 < data.len() - 1
            &&& data[(i * n + c) * 2] == v % 256
            &&& data[(i * n + c) * 2 + 1] == v / 256
        }),
{
    let n = image.components.len() as int;
    lemma_in_range(i, c, n, 2, pixel_count(image) as int);
    let p = lemma_byte_place(i, c, n, 0, 2);
    let s = lemma_byte_place(i, c, n, 1, 2);
}

/// Samples of up to 8 bits take one byte: those of a pixel stand together, in the order of
/// the components, pixel after pixel.
pub proof fn law_one_byte_samples(image: ImageView, f: PackedFormat, i: int, c: int)
    requires
        packed_format(image) == Ok::<PackedFormat, FrameError>(f),
        image.components[0].precision_bits <= 8,
        0 <= i < image.width * image.height,
        0 <= c < image.components.len(),
    ensures
        ({
            let data = packed_data(image, layout_of(f));
            let n = image.components.len();
            &&& data.len() == image.width * image.height * n
            &&& 0 <= i * n + c < data.len()
            &&& data[i * n + c] == clamped(image, c, i, 255)
        }),
{
    let n = image.components.len() as int;
    lemma_in_range(i, c, n, 1, pixel_count(image) as int);
    let p = lemma_byte_place(i, c, n, 0, 1);
}

/// A frame holds as many rows as its image, one after the other without gaps.
pub proof fn law_frame_shape(p: PackedFrame, image: ImageView, f: PackedFormat)
    requires
        holds_image(p, image, f),
        packed_format(image) == Ok::<PackedFormat, FrameError>(f),
    ensures
        p.format == f,
        p.width == image.width,
        p.height == image.height,
        p.stride == image.width * image.components.len() * (
        if image.components[0].precision_bits > 8 {
            2int
        } else {
            1
        }),
        p.data@.len() == p.stride * image.height,
{
    let n = layout_of(f).components as int;
    let b = layout_of(f).bytes as int;
    let w = image.width as int;
    let h = image.height as int;
    assert(w * h * n * b == w * n * b * h) by (nonlinear_arith);
}

/// An image can be packed if and only if it has one, three or four components, all
/// unsigned, of its own size and of one bit depth of at most 16. Otherwise it is refused
/// for the first of these that fails: that there are components, a layout for their number
/// and the depth of the first, and uniformity.
pub proof fn law_packable(image: ImageView)
    requires
        image.components.len() <= usize::MAX,
    ensures
        ({
            let n = image.components.len();
            let depth = image.components[0].precision_bits;
            let served = (n == 1 || n == 3 || n == 4) && depth <= 16;
            let uniform = forall|i: int|
                0 <= i < n ==> {
                    let c = #[trigger] image.components[i];
                    c.precision_bits == depth && !c.is_signed && c.width == image.width && c.height
                        == image.height
                };
            match packed_format(image) {
                Ok(_) => served && uniform,
                Err(FrameError::NoComponents) => n == 0,
                Err(FrameError::NoFormat { components, depth: d }) => n > 0 && !served
                    && components == n && d == depth,
                Err(FrameError::NotUniform) => served && !uniform,
                Err(_) => false,
            }
        }),
{
    if packed_format(image) == Err::<PackedFormat, FrameError>(FrameError::NotUniform) {
        let depth = image.components[0].precision_bits;
        let i = choose|i: int|
            0 <= i < image.components.len() && !crate::frame::component_fits(
                #[trigger] image.components[i],
                image.width,
                image.height,
                depth,
            );
        assert(0 <= i < image.components.len());
        let c = image.components[i];
    } else if packed_format(image) is Ok {
        let depth = image.components[0].precision_bits;
        assert forall|i: int| 0 <= i < image.components.len() implies {
            let c = #[trigger] image.components[i];
            c.precision_bits == depth && !c.is_signed && c.width == image.width && c.height
                == image.height
        } by {
            assert(crate::frame::component_fits(
                image.components[i],
                image.width,
                image.height,
                depth,
            ));
        }
    }
}

/// The name of a layout tells the number of components and their bit depth: that of the
/// image, or the least that is named for two bytes, or 8.
pub proof fn law_layout_named(image: ImageView, f: PackedFormat)
    requires
        packed_format(image) == Ok::<PackedFormat, FrameError>(f),
    ensures
        ({
            let n = image.components.len();
            let depth = image.components[0].precision_bits;
            match f {
                PackedFormat::Gray8 => n == 1 && depth <= 8,
                PackedFormat::Rgb24 => n == 3 && depth <= 8,
                PackedFormat::Rgba => n == 4 && depth <= 8,
                PackedFormat::Gray10Le => n == 1 && depth == 10,
                PackedFormat::Gray12Le => n == 1 && depth == 12,
                PackedFormat::Gray16Le => n == 1 && depth > 8 && depth != 10 && depth != 12,
                PackedFormat::Rgb48Le => n == 3 && depth > 8,
                PackedFormat::Rgba64Le => n == 4 && depth > 8,
                PackedFormat::Bgr24 | PackedFormat::Bgra => false,
            }
        }),
{
}

/// A layout has as many components, and its samples as many bits, as its name says. The
/// samples take two bytes where they have more than 8 bits.
pub proof fn law_layouts(f: PackedFormat)
    ensures
        ({
            let l = layout_of(f);
            &&& l.components == 1 <==> f is Gray8 || f is Gray10Le || f is Gray12Le || f is Gray16Le
            &&& l.components == 3 <==> f is Rgb24 || f is Bgr24 || f is Rgb48Le
            &&& l.components == 4 <==> f is Rgba || f is Bgra || f is Rgba64Le
            &&& l.depth == 8 <==> f is Gray8 || f is Rgb24 || f is Bgr24 || f is Rgba || f is Bgra
            &&& l.depth == 10 <==> f is Gray10Le
            &&& l.depth == 12 <==> f is Gray12Le
            &&& l.depth == 16 <==> f is Gray16Le || f is Rgb48Le || f is Rgba64Le
            &&& l.bytes == 2 <==> l.depth > 8
            &&& l.bytes == 1 <==> l.depth <= 8
        }),
{
}

/// Where a frame has the sample of component `c` of the pixel in column `x` of row `y`:
/// rows are `stride` bytes apart, pixels follow each other, and within a pixel the
/// components stand in order, but for blue, green, red. A sample of two bytes has its low
/// byte first.
pub proof fn law_samples_read(
    data: Seq<u8>,
    stride: int,
    width: u32,
    height: u32,
    f: PackedFormat,
    x: int,
    y: int,
    c: int,
)
    requires
        0 <= x < width,
        0 <= y < height,
        0 <= c < layout_of(f).components,
    ensures
        ({
            let l = layout_of(f);
            let n = l.components;
            let plane = plane_of(data, stride, width, height, l, c);
            let place = if (f is Bgr24 || f is Bgra) && c <= 2 { 2 - c } else { c };
            &&& plane.len() == width * height
            &&& 0 <= y * width + x < plane.len()
            &&& l.depth <= 8 ==> plane[y * width + x] == data[y * stride + x * n + place]
            &&& l.depth > 8 ==> plane[y * width + x] == data[y * stride + (x * n + place) * 2]
                + 256 * data[y * stride + (x * n + place) * 2 + 1]
        }),
{
    let w = width as int;
    let i = y * w + x;
    crate::packet::tag_tree::lemma_cell_bound(x, y, w, height as int);
    vstd::arithmetic::div_mod::lemma_fundamental_div_mod_converse(i, w, y, x);
}

/// The first sample that is too large, if there is one.
proof fn lemma_excess(data: Seq<u8>, stride: int, width: u32, l: Layout, count: int, q: int)
    requires
        0 <= q,
        l.components >= 1,
    ensures
        match first_excess(data, stride, width, l, count, q) {
            Some(v) => v >= pow2(l.depth as nat) && exists|k: int|
                q <= k < count && v == #[trigger] sample_at(
                    data,
                    stride,
                    width,
                    l,
                    k % l.components as int,
                    k / l.components as int,
                ),
            None => forall|k: int|
                q <= k < count ==> #[trigger] sample_at(
                    data,
                    stride,
                    width,
                    l,
                    k % l.components as int,
                    k / l.components as int,
                ) < pow2(l.depth as nat),
        },
    decreases count - q,
{
    if q < count {
        let n = l.components as int;
        let v = sample_at(data, stride, width, l, q % n, q / n);
        if v < pow2(l.depth as nat) {
            lemma_excess(data, stride, width, l, count, q + 1);
        }
    }
}

/// A frame is refused if its rows or its data are too short, and then if a sample has more
/// bits than its layout says. A frame that is accepted has no such sample.
pub proof fn law_frames_refused(
    data: Seq<u8>,
    stride: int,
    width: u32,
    height: u32,
    f: PackedFormat,
)
    requires
        height > 0,
    ensures
        ({
            let l = layout_of(f);
            let row = width * l.components * (if l.depth > 8 { 2int } else { 1 });
            let limit = if l.depth == 8 {
                256int
            } else if l.depth == 10 {
                1024
            } else if l.depth == 12 {
                4096
            } else {
                65536
            };
            match unpack_refused(data, stride, width, height, l) {
                Some(FrameError::PlaneTooSmall) => stride < row || data.len() < stride * (height
                    - 1) + row,
                Some(FrameError::SampleTooLarge { value, depth }) => {
                    &&& stride >= row && data.len() >= stride * (height - 1) + row
                    &&& depth == l.depth
                    &&& value >= limit
                },
                Some(_) => false,
                None => {
                    &&& stride >= row && data.len() >= stride * (height - 1) + row
                    &&& forall|c: int, i: int|
                        0 <= c < l.components && 0 <= i < width * height ==> #[trigger] plane_of(
                            data,
                            stride,
                            width,
                            height,
                            l,
                            c,
                        )[i] < limit
                },
            }
        }),
{
    let l = layout_of(f);
    let n = l.components as int;
    let w = width as int;
    let pixels = width * height;
    vstd::arithmetic::power2::lemma2_to64();
    assert(crate::frame::unpack::row_bytes(l, width) == w * n * l.bytes) by (nonlinear_arith)
        requires
            crate::frame::unpack::row_bytes(l, width) == n * l.bytes * w,
    ;
    lemma_excess(data, stride, width, l, n * pixels, 0);
    if unpack_refused(data, stride, width, height, l) is None {
        assert forall|c: int, i: int| 0 <= c < n && 0 <= i < pixels implies #[trigger] plane_of(
            data,
            stride,
            width,
            height,
            l,
            c,
        )[i] < pow2(l.depth as nat) by {
            let k = i * n + c;
            lemma_in_range(i, c, n, 1, pixels as int);
            assert(pixels * n * 1 == n * pixels) by (nonlinear_arith);
            vstd::arithmetic::div_mod::lemma_fundamental_div_mod_converse(k, n, i, c);
            assert(sample_at(data, stride, width, l, k % n, k / n) < pow2(l.depth as nat));
        }
    }
}

/// Where no layout is set, it is told from how many whole bytes of a row there are for each
/// pixel: one for grey, three for colours, four for colours with opacity.
pub proof fn law_layout_told(stride: usize, width: u32)
    requires
        width > 0,
    ensures
        match format_of_stride(stride, width) {
            Some(f) => {
                let l = layout_of(f);
                &&& l.depth == 8
                &&& !(f is Bgr24) && !(f is Bgra)
                &&& l.components * width <= stride < (l.components + 1) * width
            },
            None => {
                ||| stride < width
                ||| 2 * width <= stride < 3 * width
                ||| 5 * width <= stride
            },
        },
{
    let q = stride as int / width as int;
    vstd::arithmetic::div_mod::lemma_fundamental_div_mod(stride as int, width as int);
    let w = width as int;
    assert(q >= 0) by (nonlinear_arith)
        requires
            q == stride as int / w,
            w > 0,
            stride >= 0,
    ;
    if q < 5 {
        assert(q == 0 || q == 1 || q == 2 || q == 3 || q == 4);
        assert(w * 0 == 0 && w * 1 == w && w * 2 == 2 * w && w * 3 == 3 * w && w * 4 == 4 * w);
    } else {
        assert(w * q >= 5 * w) by (nonlinear_arith)
            requires
                q >= 5,
                w > 0,
        ;
    }
}

/// An image stands for what its fields say, its components in order.
pub proof fn law_image_fields(image: DecodedImage, c: DecodedComponent, i: int)
    requires
        0 <= i < image.components@.len(),
    ensures
        image@.width == image.width,
        image@.height == image.height,
        image@.components.len() == image.components@.len(),
        image@.components[i] == image.components@[i]@,
        c@.width == c.width,
        c@.height == c.height,
        c@.precision_bits == c.precision_bits,
        c@.is_signed == c.is_signed,
        c@.h_separation == c.h_separation,
        c@.v_separation == c.v_separation,
        c@.samples == c.samples@,
{
}

} // verus!
