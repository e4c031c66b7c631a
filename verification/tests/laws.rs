use oxideav_jpeg2000::codec::decode_image;
use oxideav_jpeg2000::dwt::Interleaved2D;
use oxideav_jpeg2000::frame::{image_to_frame, is_well_sized, FrameError};
use oxideav_jpeg2000::geometry::{ResolutionLevel, SubBand, SubBandOrientation};
use oxideav_jpeg2000::mq::{MqContext, MqDecoder};
use oxideav_jpeg2000::mqenc::MqEncoder;
use oxideav_jpeg2000::packet::{
    decode_packet_header, encode_packet_header, walk_packet_headers, walk_packet_headers_separate,
    CodeBlockPlan, PacketBitReader, PacketBitWriter, PacketGeometry, PrecinctEncoderState,
    PrecinctState, SegmentSplit, SopEphMode, SubBandGeometry, TagTree, TagTreeEncoder,
};
use oxideav_jpeg2000::reassemble::{idwt, CodedCodeBlock, ResolutionArrays};
use oxideav_jpeg2000::{DecodedComponent, DecodedImage, Error};

const LEAVES: [u32; 6] = [3, 1, 4, 2, 6, 5];

fn bits_left(mut r: PacketBitReader<'_>) -> usize {
    let mut n = 0;
    while r.read_bit().is_ok() {
        n += 1;
    }
    n
}

fn written_values(order: &[(u32, u32)]) -> Vec<u8> {
    let mut tree = TagTreeEncoder::new(3, 2, &LEAVES);
    let mut w = PacketBitWriter::new();
    for &(x, y) in order {
        tree.encode_value(x, y, &mut w);
    }
    w.finish()
}

#[test]
fn answered_queries_take_no_bit() {
    let mut encoder = TagTreeEncoder::new(3, 2, &LEAVES);
    let mut w = PacketBitWriter::new();
    encoder.encode_below_threshold(0, 0, 2, &mut w);
    encoder.encode_below_threshold(0, 0, 4, &mut w);
    let bytes = w.finish();
    let mut r = PacketBitReader::new(&bytes);
    let mut tree = TagTree::new(3, 2);
    let mut empty = PacketBitReader::new(&[]);
    assert_eq!(tree.decode_below_threshold(0, 0, 2, &mut r), Ok(false));
    assert_eq!(tree.decode_below_threshold(0, 0, 2, &mut empty), Ok(false));
    assert_eq!(tree.decode_below_threshold(0, 0, 4, &mut empty), Err(Error::UnexpectedEof));
    assert_eq!(tree.decode_below_threshold(0, 0, 4, &mut r), Ok(true));
    assert_eq!(tree.decode_below_threshold(0, 0, 4, &mut empty), Ok(true));
    assert_eq!(tree.decode_below_threshold(0, 0, 9, &mut empty), Ok(true));
    assert_eq!(tree.decode_value(0, 0, &mut empty), Ok(3));
}

#[test]
fn values_are_rising_thresholds() {
    let bytes = written_values(&[(1, 1), (0, 0), (2, 1)]);
    let mut by_value = PacketBitReader::new(&bytes);
    let mut by_threshold = PacketBitReader::new(&bytes);
    let mut t1 = TagTree::new(3, 2);
    let mut t2 = TagTree::new(3, 2);
    for (x, y, v) in [(1, 1, 6), (0, 0, 3), (2, 1, 5)] {
        assert_eq!(t1.decode_value(x, y, &mut by_value), Ok(v));
        for j in 1..=v {
            assert_eq!(t2.decode_below_threshold(x, y, j, &mut by_threshold), Ok(false));
        }
        assert_eq!(t2.decode_below_threshold(x, y, v + 1, &mut by_threshold), Ok(true));
    }
    assert_eq!(bits_left(by_value), bits_left(by_threshold));
}

#[test]
fn any_queries_are_answered_truly() {
    let queries = [
        (0, 0, Some(1)),
        (2, 1, Some(0)),
        (1, 0, None),
        (2, 1, Some(6)),
        (0, 1, Some(2)),
        (0, 0, None),
        (1, 1, Some(6)),
        (1, 1, None),
    ];
    let mut encoder = TagTreeEncoder::new(3, 2, &LEAVES);
    let mut w = PacketBitWriter::new();
    for &(x, y, limit) in &queries {
        match limit {
            Some(t) => encoder.encode_below_threshold(x, y, t, &mut w),
            None => encoder.encode_value(x, y, &mut w),
        }
    }
    let bytes = [w.finish(), vec![0xFF, 0x00]].concat();
    let mut r = PacketBitReader::new(&bytes);
    let mut tree = TagTree::new(3, 2);
    for &(x, y, limit) in &queries {
        let leaf = LEAVES[(y * 3 + x) as usize];
        match limit {
            Some(t) => assert_eq!(tree.decode_below_threshold(x, y, t, &mut r), Ok(leaf < t)),
            None => assert_eq!(tree.decode_value(x, y, &mut r), Ok(leaf)),
        }
    }
}

#[test]
fn first_value_starts_with_the_least_leaf() {
    // The root is 1 and the nodes below it 1 and 3: 01, then 1 for the node over the
    // leaf 3, then 001 for the leaf.
    assert_eq!(TagTree::new(3, 2).depth(), 3);
    assert_eq!(written_values(&[(0, 0)]), vec![0b0110_0100]);
    // A second time there is nothing to write.
    assert_eq!(written_values(&[(0, 0), (0, 0)]), vec![0b0110_0100]);
}

#[test]
fn first_threshold_counts_up_to_it() {
    let first = |t: u32, times: usize| {
        let mut tree = TagTreeEncoder::new(3, 2, &LEAVES);
        let mut w = PacketBitWriter::new();
        for _ in 0..times {
            tree.encode_below_threshold(0, 0, t, &mut w);
        }
        w.write_bit(1);
        w.finish()
    };
    // Nothing below 0; one zero for a root of 1; 01 1 0 up to 2; all of it up to 4.
    let want = [vec![0b1000_0000], vec![0b0100_0000], vec![0b0110_1000]];
    for (t, bytes) in want.iter().enumerate() {
        assert_eq!(&first(t as u32, 1), bytes);
        assert_eq!(&first(t as u32, 2), bytes);
    }
    assert_eq!(first(4, 1), vec![0b0110_0110]);
    assert_eq!(first(4, 3), vec![0b0110_0110]);
}

#[test]
fn contexts_agree_after_each_decision() {
    let starts = || {
        [
            MqContext::default(),
            MqContext::uniform(),
            MqContext::run_length(),
            MqContext::zero_neighbours(),
        ]
    };
    let mut state: u32 = 7;
    let mut plan = Vec::new();
    for _ in 0..2000 {
        state = state.wrapping_mul(1_664_525).wrapping_add(1_013_904_223);
        plan.push(((state >> 24) as usize % 4, u8::from((state >> 16) % 5 == 0)));
    }
    let mut enc = MqEncoder::new();
    let mut cxs = starts();
    let mut after = Vec::new();
    for &(k, d) in &plan {
        enc.encode(&mut cxs[k], d);
        after.push((cxs[k].index(), cxs[k].mps()));
    }
    let bytes = enc.flush();
    let mut dec = MqDecoder::new(&bytes);
    let mut cxs = starts();
    for (j, &(k, d)) in plan.iter().enumerate() {
        assert_eq!(dec.decode(&mut cxs[k]), d);
        assert_eq!((cxs[k].index(), cxs[k].mps()), after[j]);
    }
}

fn row_of_two() -> SubBandGeometry {
    SubBandGeometry { width: 2, height: 1 }
}

fn plan(passes: u32, len: u32) -> CodeBlockPlan {
    CodeBlockPlan {
        included: passes > 0,
        zero_bit_planes: 0,
        coding_passes: passes,
        segments: if passes > 0 { vec![(passes, len)] } else { vec![] },
    }
}

#[test]
fn layers_are_read_back_in_turn() {
    // The first code-block comes in layer 1, the second in layer 0; layer 2 is empty.
    let layers = [
        [plan(0, 0), plan(3, 20)],
        [plan(164, 70_000), plan(0, 0)],
        [plan(0, 0), plan(0, 0)],
        [plan(1, 1), plan(2, 9)],
    ];
    let mut enc = PrecinctEncoderState::new(&[(row_of_two(), vec![1, 0], vec![5, 2])]);
    let mut dec = PrecinctState::new();
    let mut passes = [0, 0];
    for (l, plans) in layers.iter().enumerate() {
        let layer = l as u16;
        let header = encode_packet_header(&mut enc, layer, plans);
        let geometry = PacketGeometry { sub_bands: vec![row_of_two()], layer };
        let h = decode_packet_header(
            &header,
            &geometry,
            &mut dec,
            SopEphMode::Neither,
            SegmentSplit::Single,
        )
        .unwrap();
        assert_eq!(h.bytes_consumed, header.len());
        if l == 2 {
            assert!(h.contributions.is_empty());
        } else {
            for (b, c) in h.contributions.iter().enumerate() {
                assert_eq!(c.included, plans[b].included);
                assert_eq!(c.coding_passes, plans[b].coding_passes);
                let lens: Vec<u32> = plans[b].segments.iter().map(|s| s.1).collect();
                assert_eq!(c.segment_lengths, lens);
                let planes = match (l, b) {
                    (0, 1) => Some(2),
                    (1, 0) => Some(5),
                    _ => None,
                };
                assert_eq!(c.zero_bit_planes, planes);
            }
        }
        // A code-block that is left out keeps what is known of it.
        for b in 0..2 {
            passes[b] += plans[b].coding_passes;
        }
        assert_eq!(dec.sub_bands[0].passes_so_far, passes.to_vec());
        let included: Vec<bool> = passes.iter().map(|&p| p > 0).collect();
        assert_eq!(dec.sub_bands[0].already_included, included);
    }
}

#[test]
fn headers_apart_are_read_as_in_front_of_their_data() {
    // A header that was not written here: its last byte is padded with ones.
    let first = vec![0b1110_1111u8];
    let entry = |layer: u16| {
        let geometry = PacketGeometry {
            sub_bands: vec![SubBandGeometry { width: 1, height: 1 }],
            layer,
        };
        (0usize, geometry, SegmentSplit::Single)
    };
    let packets = vec![entry(0), entry(1)];
    let geometry = packets[0].1.clone();
    let mut state = PrecinctState::new();
    let padded = [first.clone(), vec![0b1111_1110, 0, 0, 0]].concat();
    let h = decode_packet_header(
        &padded,
        &geometry,
        &mut state,
        SopEphMode::Neither,
        SegmentSplit::Single,
    )
    .unwrap();
    let header = padded[..h.bytes_consumed].to_vec();
    assert_ne!(header.last(), Some(&0xFF));
    let data = vec![0xAA; h.total_body_bytes() as usize];
    let second = vec![0b0111_1111u8];
    let inline = [header.clone(), data.clone(), second.clone()].concat();
    let hs = walk_packet_headers(&inline, &packets, SopEphMode::Neither).unwrap();
    let headers = [header.clone(), second].concat();
    let rs =
        walk_packet_headers_separate(&headers, &data, &packets, SopEphMode::Neither).unwrap();
    assert_eq!(rs.len(), 2);
    assert_eq!((&rs[0].header, &rs[1].header), (&hs[0], &hs[1]));
    assert_eq!((rs[0].body_offset, rs[1].body_offset), (0, data.len()));
}

fn level(n_l: u8, orientation: SubBandOrientation) -> ResolutionLevel {
    ResolutionLevel {
        r: 0,
        n_l,
        trx0: 0,
        try0: 0,
        trx1: 1,
        try1: 1,
        sub_bands: vec![SubBand { orientation, nb: 0, tbx0: 0, tby0: 0, tbx1: 1, tby1: 1 }],
    }
}

fn walk(levels: &[ResolutionLevel], params: &[Vec<u32>], refused: bool) -> Result<i32, Error> {
    let groups: Vec<&[CodedCodeBlock<'_>]> = Vec::new();
    let step = |a: &ResolutionArrays<i32>, _: i32, _: i32| {
        if refused {
            Err(Error::UnexpectedEof)
        } else {
            let (width, height) = a.ll_dims;
            Ok(Interleaved2D { data: a.ll.clone(), width, height })
        }
    };
    idwt(levels, &groups.as_slice(), params, 0, &|_: u32, c, _| c as i32, &step).map(|x| x.data[0])
}

#[test]
fn the_first_level_that_fails_gives_the_error() {
    let levels = [
        level(2, SubBandOrientation::LL),
        level(2, SubBandOrientation::HL),
        level(2, SubBandOrientation::HL),
    ];
    let good = vec![1u32];
    let bad = vec![];
    let p = |a: &Vec<u32>, b: &Vec<u32>, c: &Vec<u32>| [a.clone(), b.clone(), c.clone()];
    assert_eq!(walk(&levels, &p(&good, &good, &good), false), Ok(0));
    assert_eq!(walk(&levels, &p(&good, &good, &bad), true), Err(Error::UnexpectedEof));
    assert_eq!(walk(&levels, &p(&good, &bad, &good), true), Err(Error::InvalidMarkerLength));
    assert_eq!(walk(&levels, &p(&good, &good, &bad), false), Err(Error::InvalidMarkerLength));
    // Levels that are announced and missing do not matter where an earlier one fails.
    let few = &levels[..2];
    assert_eq!(walk(few, &[bad, good.clone()], false), Err(Error::InvalidMarkerLength));
    assert_eq!(walk(few, &[good.clone(), good], true), Err(Error::UnexpectedEof));
}

#[test]
fn resolution_arrays_can_be_copied() {
    let arrays = ResolutionArrays {
        ll: vec![1, 2],
        ll_dims: (2, 1),
        hl: vec![3],
        hl_dims: (1, 1),
        lh: vec![4, 5],
        lh_dims: (1, 2),
        hh: Vec::new(),
        hh_dims: (0, 0),
    };
    assert_eq!(arrays.clone(), arrays);
}

#[test]
fn sizes_matter_only_where_an_image_can_be_packed() {
    let component = DecodedComponent {
        width: 1,
        height: 1,
        precision_bits: 8,
        is_signed: false,
        h_separation: 1,
        v_separation: 1,
        samples: vec![1, 2],
    };
    let mut image = DecodedImage { width: 1, height: 1, components: vec![component] };
    assert!(!is_well_sized(&image));
    image.components[0].is_signed = true;
    assert!(is_well_sized(&image));
    assert_eq!(image_to_frame(&image), Err(FrameError::NotUniform));
    image.components[0].is_signed = false;
    image.components[0].samples = vec![9];
    assert!(is_well_sized(&image));
    assert_eq!(image_to_frame(&image).unwrap().data, vec![9]);
    assert_eq!(decode_image(&[0xFF, 0x4F], |_| Ok(image.clone())), Ok(image.clone()));
    assert_eq!(decode_image(&[], |_| Err(Error::UnexpectedEof)), Err(Error::UnexpectedEof));
}
