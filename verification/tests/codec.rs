use oxideav_core::CodecOptions;
use oxideav_jpeg2000::codec::{
    decode_packet, encode_params, plan_frame, read_container, Empty, EncodeKernel,
    EncoderSettings, FormatSetting, FrameRate, Mailbox, OfferedFrame, OptionKey, OptionTexts,
    PacketError, ProgressionOrder, RequestError, TileSize,
};
use oxideav_jpeg2000::frame::{FrameError, PackedFormat};
use oxideav_jpeg2000::{DecodedComponent, DecodedImage, Error};

fn texts(pairs: &[(&str, &str)]) -> OptionTexts {
    let mut bag = CodecOptions::new();
    for (k, v) in pairs {
        bag.insert(*k, *v);
    }
    OptionTexts::from_options(&bag)
}

fn invalid(pairs: &[(&str, &str)]) -> Option<OptionKey> {
    encode_params(&texts(pairs), None, None, 3, true).err()
}

#[test]
fn options_are_looked_up_in_the_bag() {
    let t = texts(&[("levels", "3"), ("unknown", "x"), ("levels", "4"), ("comment", "hi")]);
    assert_eq!(t.get(OptionKey::Levels), Some("4"));
    assert_eq!(t.get(OptionKey::Comment), Some("hi"));
    assert_eq!(t.get(OptionKey::Layers), None);
    assert_eq!(OptionKey::TargetBytes.name(), "target_bytes");
}

#[test]
fn options_can_be_set_one_by_one() {
    let mut t = OptionTexts::new();
    assert_eq!(t.get(OptionKey::Tile), None);
    t.set(OptionKey::Tile, "7x9".to_string());
    t.set(OptionKey::Tile, "8x9".to_string());
    assert_eq!(t.get(OptionKey::Tile), Some("8x9"));
    assert_eq!(t.get(OptionKey::Psnr), None);
}

#[test]
fn no_options_select_reversible_coding() {
    let p = encode_params(&texts(&[]), None, None, 3, true).unwrap();
    assert_eq!(p.kernel, EncodeKernel::Lossless5x3);
    assert!(p.mct);
    assert_eq!(p.decomposition_levels, None);
    assert_eq!(p.layers, None);
    assert_eq!(p.progression, None);
    assert_eq!(p.tile_size, None);
    assert_eq!(p.target_bytes, None);
    assert!(!p.high_throughput && !p.plt && !p.tlm && !p.sop && !p.eph);
    assert_eq!(p.comment, None);
    assert!(!encode_params(&texts(&[]), None, None, 2, true).unwrap().mct);
}

#[test]
fn all_options_are_read() {
    let p = encode_params(
        &texts(&[
            ("lossless", "no"),
            ("fine_bits", "3"),
            ("levels", "+5"),
            ("layers", "0012"),
            ("progression", "RpCl"),
            ("tile", "16x24"),
            ("psnr", "34"),
            ("target_bytes", "1000"),
            ("ht", "1"),
            ("plt", "true"),
            ("tlm", "yes"),
            ("sop", "0"),
            ("eph", "true"),
            ("comment", "a comment"),
        ]),
        Some(8000),
        None,
        1,
        true,
    )
    .unwrap();
    assert_eq!(p.kernel, EncodeKernel::Lossy9x7 { fine_bits: 3 });
    assert_eq!(p.decomposition_levels, Some(5));
    assert_eq!(p.layers, Some(12));
    assert_eq!(p.progression, Some(ProgressionOrder::Rpcl));
    assert_eq!(p.tile_size, Some(TileSize { width: 16, height: 24 }));
    assert_eq!(p.target_bytes, Some(1000));
    assert!(p.high_throughput && p.plt && p.tlm && !p.sop && p.eph);
    assert_eq!(p.comment.as_deref(), Some("a comment"));
    let coarse = encode_params(&texts(&[("lossless", "false")]), None, None, 1, true).unwrap();
    assert_eq!(coarse.kernel, EncodeKernel::Lossy9x7 { fine_bits: 6 });
}

#[test]
fn progression_names() {
    for (name, order) in [
        ("lrcp", ProgressionOrder::Lrcp),
        ("RLCP", ProgressionOrder::Rlcp),
        ("rpcl", ProgressionOrder::Rpcl),
        ("Pcrl", ProgressionOrder::Pcrl),
        ("cprl", ProgressionOrder::Cprl),
    ] {
        let p = encode_params(&texts(&[("progression", name)]), None, None, 1, true).unwrap();
        assert_eq!(p.progression, Some(order));
    }
}

#[test]
fn invalid_options_are_named() {
    assert_eq!(invalid(&[("lossless", "maybe")]), Some(OptionKey::Lossless));
    assert_eq!(
        invalid(&[("lossless", "false"), ("fine_bits", "256")]),
        Some(OptionKey::FineBits)
    );
    assert_eq!(invalid(&[("fine_bits", "256")]), None);
    assert_eq!(invalid(&[("levels", "many")]), Some(OptionKey::Levels));
    assert_eq!(invalid(&[("levels", "+")]), Some(OptionKey::Levels));
    assert_eq!(invalid(&[("levels", "-1")]), Some(OptionKey::Levels));
    assert_eq!(invalid(&[("layers", "65536")]), Some(OptionKey::Layers));
    assert_eq!(invalid(&[("layers", "65535")]), None);
    assert_eq!(invalid(&[("progression", "lrcpx")]), Some(OptionKey::Progression));
    for bad in ["16", "x16", "16x", "1x2x3", "16 x16", "4294967296x1"] {
        assert_eq!(invalid(&[("tile", bad)]), Some(OptionKey::Tile), "{bad}");
    }
    assert_eq!(invalid(&[("target_bytes", "")]), Some(OptionKey::TargetBytes));
    for (name, key) in [
        ("ht", OptionKey::Ht),
        ("plt", OptionKey::Plt),
        ("tlm", OptionKey::Tlm),
        ("sop", OptionKey::Sop),
        ("eph", OptionKey::Eph),
    ] {
        assert_eq!(invalid(&[(name, "on")]), Some(key));
    }
    assert_eq!(
        encode_params(&texts(&[("psnr", "x")]), None, None, 1, false).err(),
        Some(OptionKey::Psnr)
    );
    assert!(encode_params(&texts(&[]), None, None, 1, false).is_ok());
    assert_eq!(
        invalid(&[("eph", "on"), ("levels", "many")]),
        Some(OptionKey::Levels)
    );
}

#[test]
fn bit_rate_is_a_budget_per_frame() {
    let budget = |bit_rate, frame_rate| {
        encode_params(&texts(&[]), Some(bit_rate), frame_rate, 1, true).unwrap().target_bytes
    };
    assert_eq!(budget(8 * 600 * 25, Some(FrameRate { num: 25, den: 1 })), Some(600));
    assert_eq!(budget(8000, None), Some(1000));
    assert_eq!(budget(8000, Some(FrameRate { num: 0, den: 1 })), Some(1000));
    assert_eq!(budget(8000, Some(FrameRate { num: 30000, den: 1001 })), Some(33));
}

#[test]
fn container_option() {
    assert_eq!(read_container(&texts(&[])), Ok(false));
    assert_eq!(read_container(&texts(&[("container", "j2k")])), Ok(false));
    assert_eq!(read_container(&texts(&[("container", "j2c")])), Ok(false));
    assert_eq!(read_container(&texts(&[("container", "jp2")])), Ok(true));
    assert_eq!(read_container(&texts(&[("container", "jph")])), Ok(true));
    assert_eq!(
        read_container(&texts(&[("container", "JP2")])),
        Err(OptionKey::Container)
    );
}

#[test]
fn mailbox_holds_one_item() {
    let mut m = Mailbox::new();
    assert_eq!(m.take(), Err(Empty::NeedMore));
    assert!(!m.is_full());
    assert_eq!(m.put(1), Ok(()));
    assert!(m.is_full());
    assert_eq!(m.put(2), Err(2));
    m.flush();
    assert_eq!(m.take(), Ok(1));
    assert_eq!(m.take(), Err(Empty::Eof));
}

const SETTINGS: EncoderSettings = EncoderSettings {
    width: Some(2),
    height: Some(2),
    format: FormatSetting::Unset,
    bit_rate: None,
    frame_rate: None,
};

fn offer(data: &[u8], stride: usize) -> OfferedFrame<'_> {
    OfferedFrame { is_video: true, plane_count: 1, stride, data }
}

#[test]
fn frames_are_planned() {
    let data: Vec<u8> = (0..12).collect();
    let plan = plan_frame(
        false,
        &SETTINGS,
        &offer(&data, 6),
        &texts(&[("container", "jp2"), ("levels", "1")]),
        true,
    )
    .unwrap();
    assert_eq!(plan.format, PackedFormat::Rgb24);
    assert_eq!((plan.width, plan.height), (2, 2));
    assert_eq!((plan.layout.components, plan.layout.bytes, plan.layout.depth), (3, 1, 8));
    assert_eq!(plan.planes, vec![vec![0, 3, 6, 9], vec![1, 4, 7, 10], vec![2, 5, 8, 11]]);
    assert!(plan.jp2);
    assert!(plan.params.mct);
    assert_eq!(plan.params.decomposition_levels, Some(1));
}

#[test]
fn frames_are_refused_in_order() {
    let data = [0u8; 12];
    let ok = offer(&data, 6);
    let plan = |busy, s: &EncoderSettings, f: &OfferedFrame<'_>, o: &[(&str, &str)]| {
        plan_frame(busy, s, f, &texts(o), true).err()
    };
    assert_eq!(plan(true, &SETTINGS, &ok, &[]), Some(RequestError::Busy));
    assert_eq!(
        plan(false, &SETTINGS, &OfferedFrame { is_video: false, ..ok }, &[]),
        Some(RequestError::NotVideo)
    );
    for s in [
        EncoderSettings { width: None, ..SETTINGS },
        EncoderSettings { height: None, ..SETTINGS },
        EncoderSettings { width: Some(0), ..SETTINGS },
        EncoderSettings { height: Some(0), ..SETTINGS },
    ] {
        assert_eq!(plan(false, &s, &ok, &[]), Some(RequestError::NoSize));
    }
    assert_eq!(
        plan(false, &SETTINGS, &OfferedFrame { plane_count: 0, ..ok }, &[]),
        Some(RequestError::NoPlanes)
    );
    assert_eq!(
        plan(false, &SETTINGS, &OfferedFrame { plane_count: 3, ..ok }, &[]),
        Some(RequestError::ManyPlanes)
    );
    assert_eq!(
        plan(false, &SETTINGS, &offer(&data, 4), &[]),
        Some(RequestError::Pixels(FrameError::UnknownFormat))
    );
    let planar = EncoderSettings { format: FormatSetting::Other, ..SETTINGS };
    assert_eq!(plan(false, &planar, &ok, &[]), Some(RequestError::NotPacked));
    assert_eq!(
        plan(false, &SETTINGS, &offer(&data[..11], 6), &[("levels", "many")]),
        Some(RequestError::Pixels(FrameError::PlaneTooSmall))
    );
    assert_eq!(
        plan(false, &SETTINGS, &ok, &[("levels", "many"), ("container", "zip")]),
        Some(RequestError::InvalidOption(OptionKey::Levels))
    );
    assert_eq!(
        plan(false, &SETTINGS, &ok, &[("container", "zip")]),
        Some(RequestError::InvalidOption(OptionKey::Container))
    );
    let deep = EncoderSettings {
        format: FormatSetting::Packed(PackedFormat::Gray10Le),
        ..SETTINGS
    };
    assert_eq!(
        plan(false, &deep, &offer(&[0, 0, 0, 4, 0, 5, 0, 0], 4), &[]),
        Some(RequestError::Pixels(FrameError::SampleTooLarge { value: 1024, depth: 10 }))
    );
}

fn gray(width: u32, height: u32, samples: Vec<i32>) -> DecodedImage {
    let component = DecodedComponent {
        width,
        height,
        precision_bits: 8,
        is_signed: false,
        h_separation: 1,
        v_separation: 1,
        samples,
    };
    DecodedImage { width, height, components: vec![component] }
}

#[test]
fn packets_are_decoded_and_packed() {
    let image = |cs: &[u8]| Ok(gray(2, 1, cs.iter().map(|&b| i32::from(b)).collect()));
    let frame = decode_packet(&[7, 9], image).unwrap();
    assert_eq!(frame.format, PackedFormat::Gray8);
    assert_eq!((frame.width, frame.height, frame.stride), (2, 1, 2));
    assert_eq!(frame.data, vec![7, 9]);
    assert_eq!(
        decode_packet(&[7, 9], |_| Err(Error::UnexpectedEof)),
        Err(PacketError::Codec(Error::UnexpectedEof))
    );
    assert_eq!(
        decode_packet(&[7, 9], |_| Ok(DecodedImage { width: 1, height: 1, components: vec![] })),
        Err(PacketError::Pixels(FrameError::NoComponents))
    );
    let signature = [0, 0, 0, 12, 0x6A, 0x50, 0x20, 0x20, 0x0D, 0x0A, 0x87, 0x0A];
    assert_eq!(
        decode_packet(&signature, image),
        Err(PacketError::Codec(Error::UnexpectedEof))
    );
}
