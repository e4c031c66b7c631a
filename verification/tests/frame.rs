use oxideav_jpeg2000::frame::{
    check_plane, infer_format, image_to_frame, unpack_plane, FrameError, PackedFormat,
};
use oxideav_jpeg2000::{DecodedComponent, DecodedImage};

fn component(width: u32, height: u32, depth: u8, samples: Vec<i32>) -> DecodedComponent {
    DecodedComponent {
        width,
        height,
        precision_bits: depth,
        is_signed: false,
        h_separation: 1,
        v_separation: 1,
        samples,
    }
}

fn image(width: u32, height: u32, depth: u8, planes: &[Vec<i32>]) -> DecodedImage {
    DecodedImage {
        width,
        height,
        components: planes.iter().map(|p| component(width, height, depth, p.clone())).collect(),
    }
}

fn packed(depth: u8, components: usize) -> Result<PackedFormat, FrameError> {
    image_to_frame(&image(1, 1, depth, &vec![vec![0]; components])).map(|f| f.format)
}

#[test]
fn layouts_follow_component_count_and_depth() {
    for depth in [1, 8] {
        assert_eq!(packed(depth, 1), Ok(PackedFormat::Gray8));
        assert_eq!(packed(depth, 3), Ok(PackedFormat::Rgb24));
        assert_eq!(packed(depth, 4), Ok(PackedFormat::Rgba));
    }
    assert_eq!(packed(9, 1), Ok(PackedFormat::Gray16Le));
    assert_eq!(packed(10, 1), Ok(PackedFormat::Gray10Le));
    assert_eq!(packed(12, 1), Ok(PackedFormat::Gray12Le));
    assert_eq!(packed(16, 1), Ok(PackedFormat::Gray16Le));
    assert_eq!(packed(10, 3), Ok(PackedFormat::Rgb48Le));
    assert_eq!(packed(16, 4), Ok(PackedFormat::Rgba64Le));
    assert_eq!(packed(8, 2), Err(FrameError::NoFormat { components: 2, depth: 8 }));
    assert_eq!(packed(17, 1), Err(FrameError::NoFormat { components: 1, depth: 17 }));
    assert_eq!(packed(8, 0), Err(FrameError::NoComponents));
}

#[test]
fn only_uniform_unsigned_components_are_packed() {
    let fits = image(2, 1, 8, &[vec![0, 0], vec![0, 0], vec![0, 0]]);
    let refused = |change: &dyn Fn(&mut DecodedComponent)| {
        let mut i = fits.clone();
        change(&mut i.components[2]);
        image_to_frame(&i)
    };
    assert!(image_to_frame(&fits).is_ok());
    assert_eq!(refused(&|c| c.precision_bits = 7), Err(FrameError::NotUniform));
    assert_eq!(refused(&|c| c.is_signed = true), Err(FrameError::NotUniform));
    assert_eq!(
        refused(&|c| {
            c.width = 1;
            c.samples.truncate(1);
        }),
        Err(FrameError::NotUniform)
    );
    assert_eq!(refused(&|c| c.height = 2), Err(FrameError::NotUniform));
}

#[test]
fn samples_are_interleaved_and_clamped() {
    let f = image_to_frame(&image(2, 1, 8, &[vec![1, -5], vec![2, 256], vec![3, 255]])).unwrap();
    assert_eq!(f.data, vec![1, 2, 3, 0, 255, 255]);
    assert_eq!(f.stride, 6);
    let f = image_to_frame(&image(1, 2, 16, &[vec![0x1234, 70_000]])).unwrap();
    assert_eq!(f.data, vec![0x34, 0x12, 0xFF, 0xFF]);
    assert_eq!(f.stride, 2);
    let f = image_to_frame(&image(2, 2, 8, &[vec![9]])).unwrap();
    assert_eq!(f.data, vec![9, 0, 0, 0]);
}

#[test]
fn planes_are_taken_apart() {
    let data = [1u8, 2, 3, 4, 5, 6, 99, 7, 8, 9, 10, 11, 12];
    assert_eq!(
        unpack_plane(&data, 7, 2, 2, PackedFormat::Rgb24),
        Ok(vec![vec![1, 4, 7, 10], vec![2, 5, 8, 11], vec![3, 6, 9, 12]])
    );
    assert_eq!(
        unpack_plane(&data, 7, 2, 2, PackedFormat::Bgr24),
        Ok(vec![vec![3, 6, 9, 12], vec![2, 5, 8, 11], vec![1, 4, 7, 10]])
    );
    assert_eq!(
        unpack_plane(&[1, 2, 3, 4], 4, 1, 1, PackedFormat::Bgra),
        Ok(vec![vec![3], vec![2], vec![1], vec![4]])
    );
    assert_eq!(
        unpack_plane(&[0xFF, 0x0F], 2, 1, 1, PackedFormat::Gray12Le),
        Ok(vec![vec![4095]])
    );
    assert_eq!(
        unpack_plane(&[0, 0, 0, 0x10], 4, 2, 1, PackedFormat::Gray12Le),
        Err(FrameError::SampleTooLarge { value: 4096, depth: 12 })
    );
    assert_eq!(
        unpack_plane(&data[..12], 7, 2, 2, PackedFormat::Rgb24),
        Err(FrameError::PlaneTooSmall)
    );
}

#[test]
fn planes_hold_all_rows() {
    assert_eq!(check_plane(13, 7, 2, 2, PackedFormat::Rgb24), Ok(()));
    assert_eq!(check_plane(12, 7, 2, 2, PackedFormat::Rgb24), Err(FrameError::PlaneTooSmall));
    assert_eq!(check_plane(100, 5, 2, 2, PackedFormat::Rgb24), Err(FrameError::PlaneTooSmall));
    assert_eq!(
        check_plane(100, usize::MAX, u32::MAX, u32::MAX, PackedFormat::Gray8),
        Err(FrameError::PlaneTooSmall)
    );
}

#[test]
fn layouts_are_told_from_the_stride() {
    assert_eq!(infer_format(10, 10), Ok(PackedFormat::Gray8));
    assert_eq!(infer_format(30, 10), Ok(PackedFormat::Rgb24));
    assert_eq!(infer_format(45, 10), Ok(PackedFormat::Rgba));
    assert_eq!(infer_format(20, 10), Err(FrameError::UnknownFormat));
    assert_eq!(infer_format(9, 10), Err(FrameError::UnknownFormat));
}

#[test]
fn packing_and_taking_apart_undo_each_other() {
    for (format, n, bytes) in [
        (PackedFormat::Gray8, 1, 1),
        (PackedFormat::Rgb24, 3, 1),
        (PackedFormat::Rgba, 4, 1),
        (PackedFormat::Gray10Le, 1, 2),
        (PackedFormat::Rgb48Le, 3, 2),
        (PackedFormat::Rgba64Le, 4, 2),
    ] {
        let (w, h) = (5u32, 3u32);
        let depth = format.layout().depth;
        let planes: Vec<Vec<i32>> = (0..n)
            .map(|c| (0..15).map(|i| (i * 37 + c * 11) % (1 << depth.min(8))).collect())
            .collect();
        let f = image_to_frame(&image(w, h, depth, &planes)).unwrap();
        assert_eq!(f.format, format);
        let again = unpack_plane(&f.data, w as usize * n as usize * bytes, w, h, format).unwrap();
        for (c, p) in again.iter().enumerate() {
            assert_eq!(p.iter().map(|&v| i32::from(v)).collect::<Vec<_>>(), planes[c]);
        }
    }
}
