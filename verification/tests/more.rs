use oxideav_jpeg2000::jp2::{
    apply_channel_mapping, looks_like_jp2, parse_jp2, ChannelDef, CmapEntry, CmapMapping, Ihdr,
    Jp2Header, Pclr, PclrColumn, BOX_TYPE_COLR, BOX_TYPE_FTYP, BOX_TYPE_IHDR, BOX_TYPE_JP2C,
    BOX_TYPE_JP2H, BOX_TYPE_JP2_SIGNATURE, BRAND_JP2, JP2_SIGNATURE_MAGIC,
};
use oxideav_jpeg2000::mct::{
    clamp_to_dynamic_range, forward_dc_level_shift_unsigned, forward_rct, inverse_rct,
    reconstruct_tile_components_5x3, reconstruct_tile_components_5x3_multi, ComponentDescriptor,
    InverseMctMode,
};
use oxideav_jpeg2000::packet::{
    decode_packet_header, encode_packet_header, CodeBlockPlan, PacketBitReader, PacketBitWriter,
    PacketGeometry, PrecinctEncoderState, PrecinctState, SegmentSplit, SopEphMode,
    SubBandGeometry,
};
use oxideav_jpeg2000::{
    decode_jpeg2000, encode_jpeg2000, DecodedComponent, DecodedImage, Error,
};

fn put_box(out: &mut Vec<u8>, box_type: u32, content: &[u8]) {
    out.extend_from_slice(&(8 + content.len() as u32).to_be_bytes());
    out.extend_from_slice(&box_type.to_be_bytes());
    out.extend_from_slice(content);
}

fn front() -> Vec<u8> {
    let mut v = Vec::new();
    put_box(&mut v, BOX_TYPE_JP2_SIGNATURE, &JP2_SIGNATURE_MAGIC);
    let brand = BRAND_JP2.to_be_bytes();
    put_box(&mut v, BOX_TYPE_FTYP, &[brand, [0; 4], brand].concat());
    v
}

fn header() -> Vec<u8> {
    let mut v = Vec::new();
    put_box(&mut v, BOX_TYPE_IHDR, &[0, 0, 0, 1, 0, 0, 0, 1, 0, 1, 7, 7, 0, 0]);
    put_box(&mut v, BOX_TYPE_COLR, &[1, 0, 0, 0, 0, 0, 17]);
    v
}

#[test]
fn header_must_come_before_the_codestream() {
    let mut good = front();
    put_box(&mut good, BOX_TYPE_JP2H, &header());
    put_box(&mut good, BOX_TYPE_JP2C, &[1, 2, 3]);
    put_box(&mut good, BOX_TYPE_JP2C, &[4]);
    let c = parse_jp2(&good).unwrap();
    assert_eq!(&good[c.codestream_offset..][..c.codestream_len], &[1, 2, 3]);
    let mut late = front();
    put_box(&mut late, BOX_TYPE_JP2C, &[1, 2, 3]);
    put_box(&mut late, BOX_TYPE_JP2H, &header());
    assert_eq!(parse_jp2(&late), Err(Error::InvalidMarkerLength));
}

#[test]
fn files_are_told_from_codestreams() {
    assert!(looks_like_jp2(&front()));
    assert!(!looks_like_jp2(&front()[..11]));
    assert!(!looks_like_jp2(&[0xFF, 0x4F, 0xFF, 0x51, 0, 0, 0, 0, 0, 0, 0, 0]));
}

#[test]
fn boxes_past_the_end_are_refused() {
    let mut v = front();
    v.extend_from_slice(&[0, 0, 0, 20, 1, 2, 3, 4]);
    assert_eq!(parse_jp2(&v), Err(Error::PsotOverflow));
    let mut v = front();
    v.extend_from_slice(&[0, 0, 0, 1, 1, 2, 3, 4, 0xFF, 0, 0, 0, 0, 0, 0, 0]);
    assert_eq!(parse_jp2(&v), Err(Error::PsotOverflow));
    let mut v = front();
    v.extend_from_slice(&[0, 0, 0, 7, 1, 2, 3, 4]);
    assert_eq!(parse_jp2(&v), Err(Error::InvalidMarkerLength));
    let mut v = front();
    v.extend_from_slice(&[0, 0, 0]);
    assert_eq!(parse_jp2(&v), Err(Error::UnexpectedEof));
    let mut v = front();
    let mut h = header();
    h[16] = 0x40;
    h[17] = 0x01;
    put_box(&mut v, BOX_TYPE_JP2H, &h);
    assert_eq!(parse_jp2(&v), Err(Error::InvalidComponentCount));
}

fn plane(value: i32) -> DecodedComponent {
    DecodedComponent {
        width: 1,
        height: 1,
        precision_bits: 8,
        is_signed: false,
        h_separation: 1,
        v_separation: 1,
        samples: vec![value],
    }
}

fn bare_header() -> Jp2Header {
    Jp2Header {
        ihdr: Ihdr {
            height: 1,
            width: 1,
            component_count: 4,
            bpc: 7,
            compression: 7,
            colourspace_unknown: 0,
            ipr: 0,
        },
        bpcc: None,
        colr: Vec::new(),
        pclr: None,
        cmap: None,
        cdef: None,
        resolution: None,
    }
}

fn mapped(header: &Jp2Header, values: &[i32]) -> Result<Vec<i32>, Error> {
    let image = DecodedImage {
        width: 1,
        height: 1,
        components: values.iter().map(|&v| plane(v)).collect(),
    };
    let out = apply_channel_mapping(header, image)?;
    Ok(out.components.iter().map(|c| c.samples[0]).collect())
}

#[test]
fn channels_without_boxes_are_the_components() {
    assert_eq!(mapped(&bare_header(), &[5, 6, 7]), Ok(vec![5, 6, 7]));
}

#[test]
fn colours_come_first_in_their_order() {
    let def = |channel, channel_type, association| ChannelDef {
        channel,
        channel_type,
        association,
    };
    let mut h = bare_header();
    h.cdef = Some(vec![
        def(0, ChannelDef::TYPE_OPACITY, 0),
        def(1, ChannelDef::TYPE_COLOUR, 3),
        def(3, ChannelDef::TYPE_COLOUR, 1),
        def(3, ChannelDef::TYPE_OPACITY, 0),
    ]);
    assert_eq!(mapped(&h, &[10, 11, 12, 13]), Ok(vec![13, 11, 10, 12]));
    h.cdef = Some(vec![
        def(0, ChannelDef::TYPE_COLOUR, 0xFFFF),
        def(1, ChannelDef::TYPE_UNSPECIFIED, 1),
        def(2, ChannelDef::TYPE_COLOUR, 2),
        def(3, ChannelDef::TYPE_COLOUR, 2),
    ]);
    assert_eq!(mapped(&h, &[10, 11, 12, 13]), Ok(vec![12, 13, 10, 11]));
}

#[test]
fn palettes_are_clamped_and_checked() {
    let column = |bit_depth| PclrColumn { bit_depth, signed: true, values: vec![-3, 4, 9] };
    let entry = |component, mapping| CmapEntry { component, mapping };
    let mut h = bare_header();
    h.pclr = Some(Pclr { columns: vec![column(5), column(33)] });
    h.cmap = Some(vec![
        entry(0, CmapMapping::Palette { column: 0 }),
        entry(1, CmapMapping::Direct),
    ]);
    assert_eq!(mapped(&h, &[1, 77]), Ok(vec![4, 77]));
    assert_eq!(mapped(&h, &[-8, 77]), Ok(vec![-3, 77]));
    assert_eq!(mapped(&h, &[8, 77]), Ok(vec![9, 77]));
    assert_eq!(h.pclr.as_ref().unwrap().entries(), 3);
    assert_eq!(Pclr { columns: Vec::new() }.entries(), 0);
    assert_eq!(mapped(&h, &[8]), Err(Error::InvalidMarkerLength));
    h.cmap = Some(vec![entry(0, CmapMapping::Palette { column: 1 })]);
    assert_eq!(mapped(&h, &[1]), Err(Error::NotImplemented));
    h.cmap = Some(vec![entry(0, CmapMapping::Palette { column: 2 })]);
    assert_eq!(mapped(&h, &[1]), Err(Error::InvalidMarkerLength));
    h.pclr = None;
    assert_eq!(mapped(&h, &[1]), Err(Error::InvalidMarkerLength));
}

#[test]
fn whole_coding_is_not_available() {
    assert_eq!(decode_jpeg2000(&[0xFF, 0x4F]), Err(Error::NotImplemented));
    assert_eq!(encode_jpeg2000(&[1, 2, 3], 1, 1), Err(Error::NotImplemented));
    assert_eq!(
        Error::NotImplemented.message(),
        "oxideav-jpeg2000: orphan-rebuild scaffold — no decoder/encoder wired up"
    );
    assert_eq!(Error::PsotOverflow.message(), "length past the end");
}

#[test]
fn written_bits_never_end_on_ff() {
    let mut w = PacketBitWriter::new();
    w.write_bits(0xFF, 8);
    let bytes = w.finish();
    assert_eq!(bytes, vec![0xFF, 0x00]);
    let mut r = PacketBitReader::new(&bytes);
    assert_eq!(r.read_bits(8), Ok(0xFF));
    let mut w = PacketBitWriter::new();
    w.write_bits(0x1FF, 9);
    assert_eq!(w.finish(), vec![0xFF, 0x40]);
}

fn one_block() -> SubBandGeometry {
    SubBandGeometry { width: 1, height: 1 }
}

fn one_plan(passes: u32, len: u32) -> [CodeBlockPlan; 1] {
    [CodeBlockPlan {
        included: true,
        zero_bit_planes: 0,
        coding_passes: passes,
        segments: vec![(passes, len)],
    }]
}

#[test]
fn headers_are_read_as_written_whatever_follows() {
    for passes in [1u32, 2, 5, 6, 36, 37, 164] {
        for len in [0u32, 1, 7, 255, 65_535] {
            for tail in [vec![], vec![0u8; 4], vec![0xFF; 4]] {
                let mut enc = PrecinctEncoderState::new(&[(one_block(), vec![0], vec![0])]);
                let header = encode_packet_header(&mut enc, 0, &one_plan(passes, len));
                assert_ne!(header.last(), Some(&0xFF));
                let all = [header.clone(), tail].concat();
                let geometry = PacketGeometry { sub_bands: vec![one_block()], layer: 0 };
                let mut dec = PrecinctState::new();
                let h = decode_packet_header(
                    &all,
                    &geometry,
                    &mut dec,
                    SopEphMode::Neither,
                    SegmentSplit::Single,
                )
                .unwrap();
                assert_eq!(h.bytes_consumed, header.len());
                assert_eq!(h.contributions[0].coding_passes, passes);
                assert_eq!(h.contributions[0].segment_lengths, vec![len]);
                assert_eq!(h.contributions[0].zero_bit_planes, Some(0));
            }
        }
    }
}

#[test]
fn all_components_have_the_same_length() {
    let d = ComponentDescriptor { precision_bits: 8, is_signed: false };
    let (mut a, mut b) = ([0i32, 1], [2i32]);
    let mut planes: [&mut [i32]; 2] = [&mut a, &mut b];
    assert_eq!(
        reconstruct_tile_components_5x3_multi(&mut planes, &[d, d], InverseMctMode::NoMct),
        Err(Error::InvalidMarkerLength)
    );
    assert_eq!((a, b), ([0, 1], [2]));
}

#[test]
fn component_transform_is_undone_while_sums_do_not_wrap() {
    for (r, g, b) in [(0, 0, 0), (255, 0, 128), (-7, 5, 3), (1 << 29, -(1 << 29), 12_345)] {
        let (mut x, mut y, mut z) = ([r], [g], [b]);
        forward_rct(&mut x, &mut y, &mut z).unwrap();
        inverse_rct(&mut x, &mut y, &mut z).unwrap();
        assert_eq!((x, y, z), ([r], [g], [b]));
    }
}

#[test]
fn component_transform_of_31_bits_can_lose_a_sample() {
    let d = ComponentDescriptor { precision_bits: 31, is_signed: false };
    let (mut x, mut y, mut z) = ([0i32], [0i32], [0i32]);
    for c in [&mut x, &mut y, &mut z] {
        forward_dc_level_shift_unsigned(c, 31).unwrap();
    }
    forward_rct(&mut x, &mut y, &mut z).unwrap();
    reconstruct_tile_components_5x3(&mut x, &mut y, &mut z, &[d; 3], InverseMctMode::Rct).unwrap();
    assert_eq!(y, [1 << 30]);
}

#[test]
fn clipping_is_idempotent() {
    let mut s = [-5i32, 0, 3, 7, 8, 1000];
    clamp_to_dynamic_range(&mut s, 3, false).unwrap();
    assert_eq!(s, [0, 0, 3, 7, 7, 7]);
    clamp_to_dynamic_range(&mut s, 3, false).unwrap();
    assert_eq!(s, [0, 0, 3, 7, 7, 7]);
    assert_eq!(clamp_to_dynamic_range(&mut s, 0, false), Err(Error::InvalidSamplePrecision));
}
