//! Taking packed frames apart into components.
use vstd::arithmetic::power2::pow2;
use vstd::prelude::*;

use crate::frame::{
    layout_of, lemma_byte_place, packed_data, packed_format, pixel_count, stored, FrameError,
    Layout, PackedFormat,
};
use crate::image::{ComponentView, ImageView};
use crate::power::{lemma_pow2_fits, power_of_two};

verus! {

/// The layout of a frame without a declared one, from the bytes per pixel of its stride.
pub open spec fn format_of_stride(stride: usize, width: u32) -> Option<PackedFormat> {
    let bytes = stride as int / width as int;
    if bytes == 1 {
        Some(PackedFormat::Gray8)
    } else if bytes == 3 {
        Some(PackedFormat::Rgb24)
    } else if bytes == 4 {
        Some(PackedFormat::Rgba)
    } else {
        None
    }
}

/// Tells the layout of a frame from its stride.
pub fn infer_format(stride: usize, width: u32) -> (r: Result<PackedFormat, FrameError>)
    requires
        width > 0,
    ensures
        match format_of_stride(stride, width) {
            Some(f) => r == Ok::<PackedFormat, FrameError>(f),
            None => r == Err::<PackedFormat, FrameError>(FrameError::UnknownFormat),
        },
{
    match stride as u64 / width as u64 {
        1 => Ok(PackedFormat::Gray8),
        3 => Ok(PackedFormat::Rgb24),
        4 => Ok(PackedFormat::Rgba),
        _ => Err(FrameError::UnknownFormat),
    }
}

/// The bytes of the pixels of one row.
pub open spec fn row_bytes(l: Layout, width: u32) -> int {
    l.components * l.bytes * width
}

/// Whether a plane holds all rows: the stride has room for the pixels, and the last row
/// is complete.
pub open spec fn plane_fits(len: int, stride: int, width: u32, height: u32, l: Layout) -> bool {
    let row = row_bytes(l, width);
    stride >= row && len >= stride * (height - 1) + row
}

/// Sample `i` of component `c`, counting the pixels row by row.
pub open spec fn sample_at(
    data: Seq<u8>,
    stride: int,
    width: u32,
    l: Layout,
    c: int,
    i: int,
) -> u16 {
    let at = i / width as int * stride + (i % width as int * l.components + l.place(c)) * l.bytes;
    if l.bytes == 1 {
        data[at] as u16
    } else {
        (data[at] + 0x100 * data[at + 1]) as u16
    }
}

/// The samples of component `c`.
pub open spec fn plane_of(
    data: Seq<u8>,
    stride: int,
    width: u32,
    height: u32,
    l: Layout,
    c: int,
) -> Seq<u16> {
    Seq::new(width as nat * height as nat, |i: int| sample_at(data, stride, width, l, c, i))
}

/// The first sample that does not fit the bit depth, from number `q` on, where the
/// samples of each pixel count in turn.
pub open spec fn first_excess(
    data: Seq<u8>,
    stride: int,
    width: u32,
    l: Layout,
    count: int,
    q: int,
) -> Option<u16>
    decreases count - q,
{
    if q >= count {
        None
    } else {
        let n = l.components as int;
        let v = sample_at(data, stride, width, l, q % n, q / n);
        if v >= pow2(l.depth as nat) {
            Some(v)
        } else {
            first_excess(data, stride, width, l, count, q + 1)
        }
    }
}

/// Why a plane cannot be taken apart, if it cannot.
pub open spec fn unpack_refused(
    data: Seq<u8>,
    stride: int,
    width: u32,
    height: u32,
    l: Layout,
) -> Option<FrameError> {
    if !plane_fits(data.len() as int, stride, width, height, l) {
        Some(FrameError::PlaneTooSmall)
    } else {
        match first_excess(data, stride, width, l, l.components * (width * height), 0) {
            Some(value) => Some(FrameError::SampleTooLarge { value, depth: l.depth }),
            None => None,
        }
    }
}

/// Checks that a plane holds all rows.
pub fn check_plane(
    len: usize,
    stride: usize,
    width: u32,
    height: u32,
    format: PackedFormat,
) -> (r: Result<(), FrameError>)
    requires
        height > 0,
    ensures
        if plane_fits(len as int, stride as int, width, height, layout_of(format)) {
            r is Ok
        } else {
            r == Err::<(), FrameError>(FrameError::PlaneTooSmall)
        },
{
    let l: Layout = format.layout();
    assert(1 <= l.components <= 4 && 1 <= l.bytes <= 2);
    assert(l.components * l.bytes <= 8) by (nonlinear_arith)
        requires
            l.components <= 4,
            l.bytes <= 2,
    ;
    let pixel: u128 = l.components as u128 * l.bytes as u128;
    proof {
        assert(pixel * width <= 8 * 0xFFFF_FFFF) by (nonlinear_arith)
            requires
                0 <= pixel <= 8,
                0 <= width <= 0xFFFF_FFFF,
        ;
        assert(stride * (height - 1) <= 0xFFFF_FFFF_FFFF_FFFF * 0xFFFF_FFFF) by (nonlinear_arith)
            requires
                0 <= stride <= 0xFFFF_FFFF_FFFF_FFFF,
                1 <= height <= 0xFFFF_FFFF,
        ;
    }
    let row: u128 = pixel * width as u128;
    let need: u128 = stride as u128 * (height - 1) as u128 + row;
    if (stride as u128) < row || (len as u128) < need {
        return Err(FrameError::PlaneTooSmall);
    }
    Ok(())
}

/// A sample of a row lies in the plane.
proof fn lemma_sample_inside(
    len: int,
    stride: int,
    width: u32,
    height: u32,
    l: Layout,
    c: int,
    x: int,
    y: int,
)
    requires
        plane_fits(len, stride, width, height, l),
        1 <= l.bytes,
        0 <= l.place(c) < l.components,
        0 <= x < width,
        0 <= y < height,
    ensures
        0 <= y * stride,
        0 <= x * l.components + l.place(c),
        0 <= (x * l.components + l.place(c)) * l.bytes,
        y * stride + (x * l.components + l.place(c)) * l.bytes + l.bytes <= len,
{
    let n = l.components as int;
    let b = l.bytes as int;
    let p = l.place(c);
    let row = row_bytes(l, width);
    assert(0 <= y * stride <= stride * (height - 1)) by (nonlinear_arith)
        requires
            0 <= y <= height - 1,
            0 <= stride,
    ;
    assert(0 <= x * n + p && x * n + p + 1 <= width * n) by (nonlinear_arith)
        requires
            0 <= x <= width - 1,
            0 <= p <= n - 1,
    ;
    let q = x * n + p;
    let wn = width as int * n;
    assert(0 <= q * b && q * b + b <= wn * b) by (nonlinear_arith)
        requires
            0 <= q,
            q + 1 <= wn,
            1 <= b,
    ;
    assert(wn * b == n * b * width) by (nonlinear_arith)
        requires
            wn == width as int * n,
    ;
}

/// Takes a packed plane apart into one plane per component.
pub fn unpack_plane(
    data: &[u8],
    stride: usize,
    width: u32,
    height: u32,
    format: PackedFormat,
) -> (r: Result<Vec<Vec<u16>>, FrameError>)
    requires
        height > 0,
    ensures
        ({
            let l = layout_of(format);
            match unpack_refused(data@, stride as int, width, height, l) {
                Some(e) => r == Err::<Vec<Vec<u16>>, FrameError>(e),
                None => {
                    &&& r matches Ok(planes)
                    &&& planes@.len() == l.components
                    &&& forall|c: int|
                        0 <= c < l.components ==> (#[trigger] planes@[c])@ == plane_of(
                            data@,
                            stride as int,
                            width,
                            height,
                            l,
                            c,
                        )
                },
            }
        }),
{
    let l: Layout = format.layout();
    match check_plane(data.len(), stride, width, height, format) {
        Ok(_) => {},
        Err(e) => {
            return Err(e);
        },
    }
    let n: usize = l.components;
    proof {
        lemma_pow2_fits(l.depth as nat);
    }
    let limit: u64 = power_of_two(l.depth);
    let ghost count = n * (width * height);
    let ghost goal = first_excess(data@, stride as int, width, l, count, 0);
    let mut planes: Vec<Vec<u16>> = Vec::new();
    for c in 0..n
        invariant
            planes@.len() == c,
            forall|k: int| 0 <= k < c ==> (#[trigger] planes@[k])@.len() == 0,
    {
        planes.push(Vec::new());
    }
    let ghost mut i: int = 0;
    let mut y: u32 = 0;
    assert(n * 0 == 0);
    assert forall|k: int| 0 <= k < n implies (#[trigger] planes@[k])@ == plane_of(
        data@,
        stride as int,
        width,
        height,
        l,
        k,
    ).take(0) by {
        assert(planes@[k]@ =~= plane_of(data@, stride as int, width, height, l, k).take(0));
    }
    while y < height
        invariant
            y <= height,
            i == y * width,
            n == l.components,
            l == layout_of(format),
            limit == pow2(l.depth as nat),
            plane_fits(data@.len() as int, stride as int, width, height, l),
            count == n * (width * height),
            goal == first_excess(data@, stride as int, width, l, count, 0),
            goal == first_excess(data@, stride as int, width, l, count, n * i),
            planes@.len() == n,
            forall|k: int|
                0 <= k < n ==> (#[trigger] planes@[k])@ == plane_of(
                    data@,
                    stride as int,
                    width,
                    height,
                    l,
                    k,
                ).take(i),
        decreases height - y,
    {
        let mut x: u32 = 0;
        while x < width
            invariant
                y < height,
                x <= width,
                i == y * width + x,
                n == l.components,
                l == layout_of(format),
                limit == pow2(l.depth as nat),
                plane_fits(data@.len() as int, stride as int, width, height, l),
                    count == n * (width * height),
                goal == first_excess(data@, stride as int, width, l, count, 0),
                goal == first_excess(data@, stride as int, width, l, count, n * i),
                planes@.len() == n,
                forall|k: int|
                    0 <= k < n ==> (#[trigger] planes@[k])@ == plane_of(
                        data@,
                        stride as int,
                        width,
                        height,
                        l,
                        k,
                    ).take(i),
            decreases width - x,
        {
            proof {
                crate::packet::tag_tree::lemma_cell_bound(
                    x as int,
                    y as int,
                    width as int,
                    height as int,
                );
                vstd::arithmetic::div_mod::lemma_fundamental_div_mod_converse(
                    i,
                    width as int,
                    y as int,
                    x as int,
                );
                assert(n * i + n <= count) by (nonlinear_arith)
                    requires
                        i + 1 <= width * height,
                        count == n * (width * height),
                ;
            }
            for c in 0..n
                invariant
                    y < height,
                    x < width,
                    0 <= i,
                    i < width * height,
                    i / width as int == y,
                    i % width as int == x,
                    n == l.components,
                    l == layout_of(format),
                    limit == pow2(l.depth as nat),
                    plane_fits(data@.len() as int, stride as int, width, height, l),
                    n * i + n <= count,
                    count == n * (width * height),
                    goal == first_excess(data@, stride as int, width, l, count, 0),
                    goal == first_excess(data@, stride as int, width, l, count, n * i + c),
                    planes@.len() == n,
                    forall|k: int|
                        0 <= k < n ==> (#[trigger] planes@[k])@ == plane_of(
                            data@,
                            stride as int,
                            width,
                            height,
                            l,
                            k,
                        ).take(
                            if k < c {
                                i + 1
                            } else {
                                i
                            },
                        ),
            {
                let p: usize = l.place_of(c);
                proof {
                    assert(data.len() == data@.len());
                    lemma_sample_inside(
                        data@.len() as int,
                        stride as int,
                        width,
                        height,
                        l,
                        c as int,
                        x as int,
                        y as int,
                    );
                    vstd::arithmetic::mul::lemma_mul_is_commutative(n as int, i);
                    vstd::arithmetic::div_mod::lemma_fundamental_div_mod_converse(
                        n * i + c,
                        n as int,
                        i,
                        c as int,
                    );
                    let q = x * n + p;
                    assert(q <= q * l.bytes) by (nonlinear_arith)
                        requires
                            0 <= q,
                            1 <= l.bytes,
                    ;
                    assert(0 <= x * n) by (nonlinear_arith)
                        requires
                            0 <= x,
                            0 <= n,
                    ;
                }
                let at: usize = y as usize * stride + (x as usize * n + p) * l.bytes;
                let v: u16 = if l.bytes == 1 {
                    data[at] as u16
                } else {
                    data[at] as u16 + 0x100 * data[at + 1] as u16
                };
                assert(v == sample_at(data@, stride as int, width, l, c as int, i));
                if v as u64 >= limit {
                    return Err(FrameError::SampleTooLarge { value: v, depth: l.depth });
                }
                let ghost mine = plane_of(data@, stride as int, width, height, l, c as int);
                planes[c].push(v);
                assert(mine.take(i + 1) =~= mine.take(i).push(mine[i]));
            }
            assert(n * i + n == n * (i + 1)) by (nonlinear_arith);
            proof {
                i = i + 1;
            }
            x = x + 1;
        }
        assert(y * width + width == (y + 1) * width) by (nonlinear_arith);
        y = y + 1;
    }
    proof {
        assert(i == width * height) by (nonlinear_arith)
            requires
                i == y * width,
                y == height,
        ;
        assert forall|c: int| 0 <= c < n implies (#[trigger] planes@[c])@ == plane_of(
            data@,
            stride as int,
            width,
            height,
            l,
            c,
        ) by {
            let whole = plane_of(data@, stride as int, width, height, l, c);
            assert(whole.take(i) =~= whole);
        }
    }
    Ok(planes)
}

/// Without gaps between the rows the samples follow one another.
proof fn lemma_contiguous(w: int, n: int, b: int, c: int, i: int)
    requires
        w > 0,
        0 <= i,
    ensures
        i / w * (n * b * w) + (i % w * n + c) * b == (i * n + c) * b,
{
    vstd::arithmetic::div_mod::lemma_fundamental_div_mod(i, w);
    let y = i / w;
    let x = i % w;
    assert(y * (n * b * w) + (x * n + c) * b == ((w * y + x) * n + c) * b) by (nonlinear_arith);
}

/// A sample ends before the end of the last pixel.
proof fn lemma_end_of_sample(i: int, c: int, n: int, b: int, pixels: int)
    requires
        0 <= i < pixels,
        0 <= c < n,
        0 < b,
    ensures
        (i * n + c) * b + b <= pixels * n * b,
{
    let q = i * n + c;
    assert(q + 1 <= pixels * n) by (nonlinear_arith)
        requires
            q == i * n + c,
            c + 1 <= n,
            i + 1 <= pixels,
            0 < n,
    ;
    let m = pixels * n;
    assert(q * b + b <= m * b) by (nonlinear_arith)
        requires
            q + 1 <= m,
            0 < b,
    ;
}

/// No sample of a packed image is changed by packing: each component has one sample per
/// pixel, and all fit the layout.
pub open spec fn fits_layout(image: ImageView, l: Layout) -> bool {
    forall|c: int, i: int|
        #![trigger image.components[c].samples[i]]
        0 <= c < image.components.len() ==> image.components[c].samples.len() == pixel_count(image)
            && (0 <= i < pixel_count(image) ==> 0 <= image.components[c].samples[i] < pow2(
            l.depth as nat,
        ))
}

/// Taking a packed image apart gives its components back.
pub proof fn law_unpack_of_pack(image: ImageView, f: PackedFormat)
    requires
        packed_format(image) == Ok::<PackedFormat, FrameError>(f),
        image.width > 0,
        image.height > 0,
        fits_layout(image, layout_of(f)),
    ensures
        ({
            let l = layout_of(f);
            let data = packed_data(image, l);
            let stride = row_bytes(l, image.width);
            &&& unpack_refused(data, stride, image.width, image.height, l) is None
            &&& forall|c: int|
                0 <= c < l.components ==> #[trigger] plane_of(
                    data,
                    stride,
                    image.width,
                    image.height,
                    l,
                    c,
                ) == Seq::new(
                    pixel_count(image),
                    |i: int| image.components[c].samples[i] as u16,
                )
        }),
{
    let l = layout_of(f);
    let n = l.components as int;
    let b = l.bytes as int;
    let w = image.width as int;
    let h = image.height as int;
    let data = packed_data(image, l);
    let stride = row_bytes(l, image.width);
    let pixels = pixel_count(image) as int;
    assert(n == image.components.len());
    lemma_pow2_fits(l.depth as nat);
    vstd::arithmetic::power2::lemma2_to64();
    assert(stride * (h - 1) + stride == pixels * n * b) by (nonlinear_arith)
        requires
            stride == n * b * w,
            pixels == w * h,
    ;
    assert forall|c: int, i: int| 0 <= c < n && 0 <= i < pixels implies #[trigger] sample_at(
        data,
        stride,
        image.width,
        l,
        c,
        i,
    ) == image.components[c].samples[i] as u16 by {
        lemma_contiguous(w, n, b, c, i);
        let p = lemma_byte_place(i, c, n, 0, b);
        lemma_end_of_sample(i, c, n, b, pixels);
        let v = image.components[c].samples[i];
        assert(0 <= v < pow2(l.depth as nat));
        assert(data[p] == (stored(v, b) % 0x100) as u8);
        if b == 2 {
            let s = lemma_byte_place(i, c, n, 1, b);
            assert(data[s] == (stored(v, b) / 0x100) as u8);
        }
    }
    assert forall|c: int| 0 <= c < n implies #[trigger] plane_of(
        data,
        stride,
        image.width,
        image.height,
        l,
        c,
    ) == Seq::new(pixel_count(image), |i: int| image.components[c].samples[i] as u16) by {
        assert(plane_of(data, stride, image.width, image.height, l, c) =~= Seq::new(
            pixel_count(image),
            |i: int| image.components[c].samples[i] as u16,
        ));
    }
    lemma_no_excess(image, l, data, stride, 0);
}

/// No sample of a packed image exceeds its bit depth.
proof fn lemma_no_excess(image: ImageView, l: Layout, data: Seq<u8>, stride: int, q: int)
    requires
        l.components > 0,
        image.components.len() == l.components,
        0 <= q,
        1 <= l.depth <= 16,
        fits_layout(image, l),
        forall|c: int, i: int|
            0 <= c < l.components && 0 <= i < pixel_count(image) ==> #[trigger] sample_at(
                data,
                stride,
                image.width,
                l,
                c,
                i,
            ) == image.components[c].samples[i] as u16,
    ensures
        first_excess(
            data,
            stride,
            image.width,
            l,
            l.components * (image.width * image.height),
            q,
        ) is None,
    decreases l.components * (image.width * image.height) - q,
{
    let n = l.components as int;
    let count = n * (image.width * image.height);
    if q < count {
        let c = q % n;
        let i = q / n;
        vstd::arithmetic::div_mod::lemma_fundamental_div_mod(q, n);
        assert(0 <= i < pixel_count(image)) by (nonlinear_arith)
            requires
                q == n * i + c,
                0 <= c < n,
                0 <= q < n * pixel_count(image),
        ;
        lemma_pow2_fits(l.depth as nat);
        vstd::arithmetic::power2::lemma2_to64();
        if l.depth < 16 {
            vstd::arithmetic::power2::lemma_pow2_strictly_increases(l.depth as nat, 16);
        }
        assert(0 <= image.components[c].samples[i] < pow2(l.depth as nat));
        assert(sample_at(data, stride, image.width, l, c, i)
            == image.components[c].samples[i] as u16);
        lemma_no_excess(image, l, data, stride, q + 1);
    }
}

/// An image whose components are those of a packed plane, at the bit depth of its
/// layout.
pub open spec fn unpacked_image(
    data: Seq<u8>,
    stride: int,
    width: u32,
    height: u32,
    l: Layout,
) -> ImageView {
    ImageView {
        width,
        height,
        components: Seq::new(
            l.components as nat,
            |c: int|
                {
                    let plane = plane_of(data, stride, width, height, l, c);
                    ComponentView {
                        width,
                        height,
                        precision_bits: l.depth,
                        is_signed: false,
                        h_separation: 1,
                        v_separation: 1,
                        samples: Seq::new(plane.len(), |i: int| plane[i] as i32),
                    }
                },
        ),
    }
}

/// Taking a plane without gaps apart and packing the components again gives the same
/// bytes in the same layout, if the layout is one in which images are packed.
pub proof fn law_pack_of_unpack(data: Seq<u8>, width: u32, height: u32, f: PackedFormat)
    requires
        width > 0,
        height > 0,
        !layout_of(f).swapped,
        data.len() == row_bytes(layout_of(f), width) * height,
    ensures
        ({
            let l = layout_of(f);
            let image = unpacked_image(data, row_bytes(l, width), width, height, l);
            &&& packed_format(image) == Ok::<PackedFormat, FrameError>(f)
            &&& packed_data(image, l) == data
        }),
{
    let l = layout_of(f);
    let n = l.components as int;
    let b = l.bytes as int;
    let w = width as int;
    let stride = row_bytes(l, width);
    let image = unpacked_image(data, stride, width, height, l);
    let pixels = pixel_count(image) as int;
    let again = packed_data(image, l);
    assert(forall|i: int|
        0 <= i < n ==> crate::frame::component_fits(
            #[trigger] image.components[i],
            width,
            height,
            l.depth,
        ));
    assert(stride * height == pixels * n * b) by (nonlinear_arith)
        requires
            stride == n * b * w,
            pixels == w * height,
    ;
    assert forall|p: int| 0 <= p < data.len() implies #[trigger] again[p] == data[p] by {
        let q = p / b;
        let c = q % n;
        let i = q / n;
        vstd::arithmetic::div_mod::lemma_fundamental_div_mod(p, b);
        vstd::arithmetic::div_mod::lemma_fundamental_div_mod(q, n);
        assert(q == i * n + c) by (nonlinear_arith)
            requires
                q == n * i + c,
        ;
        assert(p == q * b + p % b) by (nonlinear_arith)
            requires
                p == b * q + p % b,
        ;
        let m = pixels * n;
        assert(0 <= q < m) by (nonlinear_arith)
            requires
                p == q * b + p % b,
                0 <= p % b < b,
                0 <= p < m * b,
        ;
        assert(0 <= i < pixels) by (nonlinear_arith)
            requires
                q == i * n + c,
                0 <= c < n,
                0 <= q < pixels * n,
        ;
        lemma_contiguous(w, n, b, c, i);
        lemma_end_of_sample(i, c, n, b, pixels);
        let v = sample_at(data, stride, width, l, c, i);
        assert(image.components[c].samples[i] == v);
    }
    assert(again =~= data);
}

} // verus!
