use oxideav_jpeg2000::packet::{
    bypass_pass_is_raw, bypass_pass_terminated, bypass_segment_spans, decode_coding_passes,
    decode_packet_header, decode_segment_length, encode_coding_passes, encode_packet_header,
    encode_segment_length, encode_segment_lengths, ht_first_cleanup_candidate,
    ht_pass_ends_segment, ht_segment_spans, pass_role, peek_sop_nsop, walk_packet_headers,
    walk_packet_headers_separate, CodeBlockContribution, CodeBlockPlan, LblockState,
    PacketBitReader, PacketBitWriter, PacketGeometry, PacketHeader, PassRole,
    PrecinctEncoderState, PrecinctState, RelocatedPacket, SegmentSplit, SopEphMode,
    SubBandGeometry, SubBandState, TagTree, TagTreeEncoder,
};
use oxideav_jpeg2000::Error;

#[test]
fn pass_role_matches_d3_schedule() {
    assert_eq!(pass_role(0), PassRole::Cleanup);
    assert_eq!(pass_role(1), PassRole::Sp);
    assert_eq!(pass_role(2), PassRole::Mr);
    assert_eq!(pass_role(3), PassRole::Cleanup);
    assert_eq!(pass_role(9), PassRole::Cleanup);
    assert_eq!(pass_role(10), PassRole::Sp);
    assert_eq!(pass_role(11), PassRole::Mr);
    assert_eq!(pass_role(12), PassRole::Cleanup);
}

#[test]
fn bypass_termination_follows_table_d9() {
    for i in 0..9 {
        assert!(
            !bypass_pass_terminated(i, false),
            "AC pass {i} not terminated"
        );
    }
    assert!(bypass_pass_terminated(9, false));
    assert!(!bypass_pass_terminated(10, false));
    assert!(bypass_pass_terminated(11, false));
    assert!(bypass_pass_terminated(12, false));
    assert!(!bypass_pass_terminated(13, false));
    for i in 0..14 {
        assert!(
            bypass_pass_terminated(i, true),
            "pass {i} terminated under bit-2"
        );
    }
}

#[test]
fn bypass_is_raw_only_sp_mr_from_bitplane_five() {
    assert!(!bypass_pass_is_raw(0));
    assert!(!bypass_pass_is_raw(9));
    assert!(bypass_pass_is_raw(10));
    assert!(bypass_pass_is_raw(11));
    assert!(!bypass_pass_is_raw(12));
    assert!(bypass_pass_is_raw(13));
}

#[test]
fn ht_boundary_set_matches_t814_b2() {
    let expect: Vec<u32> = vec![0, 2, 3, 5, 6, 8, 9, 11, 12];
    let got: Vec<u32> = (0..=12).filter(|&i| ht_pass_ends_segment(i, 0)).collect();
    assert_eq!(got, expect);
    let closed: Vec<u32> = (0..9u32).map(|k| (3 * k).div_ceil(2)).collect();
    assert_eq!(got, closed);
    let shifted: Vec<u32> = (0..=15).filter(|&i| ht_pass_ends_segment(i, 3)).collect();
    let expect3: Vec<u32> = expect.iter().map(|&i| i + 3).collect();
    assert_eq!(shifted, expect3);
}

#[test]
fn ht_segment_spans_shapes() {
    assert_eq!(ht_segment_spans(0, 1, 0), vec![1]);
    assert_eq!(ht_segment_spans(0, 2, 0), vec![1, 1]);
    assert_eq!(ht_segment_spans(0, 3, 0), vec![1, 2]);
    assert_eq!(ht_segment_spans(1, 2, 0), vec![2]);
    assert_eq!(ht_segment_spans(2, 1, 0), vec![1]);
    assert_eq!(ht_segment_spans(0, 6, 0), vec![1, 2, 1, 2]);
    assert_eq!(ht_segment_spans(3, 3, 0), vec![1, 2]);
    assert!(ht_segment_spans(4, 0, 0).is_empty());
}

#[test]
fn ht_segment_spans_with_placeholders() {
    assert_eq!(ht_segment_spans(0, 6, 3), vec![4, 2]);
    assert_eq!(ht_segment_spans(0, 3, 3), vec![3]);
    assert_eq!(ht_segment_spans(3, 3, 3), vec![1, 2]);
    assert_eq!(ht_segment_spans(6, 3, 3), vec![1, 2]);
    assert_eq!(ht_segment_spans(0, 2, 3), vec![2]);
    assert_eq!(ht_segment_spans(2, 2, 3), vec![2]);
}

#[test]
fn ht_first_cleanup_candidate_pins_p0() {
    assert_eq!(ht_first_cleanup_candidate(0, 1), Some(0));
    assert_eq!(ht_first_cleanup_candidate(0, 2), Some(0));
    assert_eq!(ht_first_cleanup_candidate(0, 3), Some(0));
    assert_eq!(ht_first_cleanup_candidate(3, 3), Some(3));
    assert_eq!(ht_first_cleanup_candidate(0, 6), Some(3));
    assert_eq!(ht_first_cleanup_candidate(0, 4), Some(3));
    assert_eq!(ht_first_cleanup_candidate(0, 5), Some(3));
    assert_eq!(ht_first_cleanup_candidate(4, 1), None);
    assert_eq!(ht_first_cleanup_candidate(4, 2), None);
    assert_eq!(ht_first_cleanup_candidate(7, 1), None);
    assert_eq!(ht_first_cleanup_candidate(0, 0), None);
}

#[test]
fn packet_header_ht_placeholders_and_sets_round_trip() {
    let geom = SubBandGeometry {
        width: 2,
        height: 1,
    };
    type Shape = (u32, Vec<(u32, u32)>);
    let shapes: [[Shape; 2]; 3] = [
        [(3, vec![(3, 0)]), (3, vec![(1, 7), (2, 0)])],
        [(3, vec![(1, 5), (2, 0)]), (3, vec![(1, 9), (2, 4)])],
        [(1, vec![(1, 11)]), (1, vec![(1, 6)])],
    ];
    let zbp = vec![1u32, 0];
    let mut enc = PrecinctEncoderState::new(&[(geom, vec![0u32, 0], zbp.clone())]);
    let headers: Vec<Vec<u8>> = shapes
        .iter()
        .enumerate()
        .map(|(l, row)| {
            let plans: Vec<CodeBlockPlan> = row
                .iter()
                .zip(zbp.iter())
                .map(|((passes, segs), &p)| CodeBlockPlan {
                    included: true,
                    zero_bit_planes: p,
                    coding_passes: *passes,
                    segments: segs.clone(),
                })
                .collect();
            encode_packet_header(&mut enc, l as u16, &plans)
        })
        .collect();

    let mut dec = PrecinctState::new();
    for (l, hb) in headers.iter().enumerate() {
        let geometry = PacketGeometry {
            sub_bands: vec![geom],
            layer: l as u16,
        };
        let hdr =
            decode_packet_header(hb, &geometry, &mut dec, SopEphMode::Neither, SegmentSplit::Ht)
                .unwrap();
        for (b, c) in hdr.contributions.iter().enumerate() {
            assert!(c.included, "layer {l} block {b}");
            assert_eq!(c.coding_passes, shapes[l][b].0, "layer {l} block {b}");
            let want: Vec<u32> = shapes[l][b].1.iter().map(|s| s.1).collect();
            assert_eq!(c.segment_lengths, want, "layer {l} block {b}");
        }
    }
    assert_eq!(
        dec.sub_bands[0].ht_placeholder_passes,
        vec![Some(3), Some(0)]
    );
}

#[test]
fn packet_header_ht_skip_set_and_split_refinement_round_trip() {
    let geom = SubBandGeometry {
        width: 1,
        height: 1,
    };
    type Shape = (u32, Vec<(u32, u32)>);
    let shapes: [Shape; 5] = [
        (1, vec![(1, 8)]),
        (1, vec![(1, 3)]),
        (1, vec![(1, 2)]),
        (3, vec![(1, 0), (2, 0)]),
        (1, vec![(1, 13)]),
    ];
    let mut enc = PrecinctEncoderState::new(&[(geom, vec![0u32], vec![4u32])]);
    let headers: Vec<Vec<u8>> = shapes
        .iter()
        .enumerate()
        .map(|(l, (passes, segs))| {
            encode_packet_header(
                &mut enc,
                l as u16,
                &[CodeBlockPlan {
                    included: true,
                    zero_bit_planes: 4,
                    coding_passes: *passes,
                    segments: segs.clone(),
                }],
            )
        })
        .collect();
    let mut dec = PrecinctState::new();
    for (l, hb) in headers.iter().enumerate() {
        let geometry = PacketGeometry {
            sub_bands: vec![geom],
            layer: l as u16,
        };
        let hdr =
            decode_packet_header(hb, &geometry, &mut dec, SopEphMode::Neither, SegmentSplit::Ht)
                .unwrap();
        let c = &hdr.contributions[0];
        assert_eq!(c.coding_passes, shapes[l].0, "layer {l}");
        let want: Vec<u32> = shapes[l].1.iter().map(|s| s.1).collect();
        assert_eq!(c.segment_lengths, want, "layer {l}");
    }
}

#[test]
fn packet_header_ht_length_one_first_segment_rejected() {
    let geom = SubBandGeometry {
        width: 1,
        height: 1,
    };
    let mut enc = PrecinctEncoderState::new(&[(geom, vec![0u32], vec![0u32])]);
    let hb = encode_packet_header(
        &mut enc,
        0,
        &[CodeBlockPlan {
            included: true,
            zero_bit_planes: 0,
            coding_passes: 3,
            segments: vec![(1, 1), (2, 0)],
        }],
    );
    let geometry = PacketGeometry {
        sub_bands: vec![geom],
        layer: 0,
    };
    let mut dec = PrecinctState::new();
    assert!(
        decode_packet_header(&hb, &geometry, &mut dec, SopEphMode::Neither, SegmentSplit::Ht,)
            .is_err()
    );
}

#[test]
fn bypass_segment_spans_default_schedule() {
    let spans = bypass_segment_spans(0, 14, false);
    assert_eq!(
        spans,
        vec![
            (10, false),
            (2, true),
            (1, false),
            (1, true),
        ]
    );
    assert_eq!(spans.iter().map(|(p, _)| p).sum::<u32>(), 14);
}

#[test]
fn bypass_segment_spans_short_block_single_ac_segment() {
    let spans = bypass_segment_spans(0, 7, false);
    assert_eq!(spans, vec![(7, false)]);
}

#[test]
fn bypass_segment_spans_termall_one_per_pass() {
    let spans = bypass_segment_spans(0, 13, true);
    assert_eq!(spans.len(), 13);
    assert_eq!(spans[10], (1, true));
    assert_eq!(spans[11], (1, true));
    assert_eq!(spans[12], (1, false));
}

#[test]
fn bypass_segment_spans_resume_across_layers() {
    let spans = bypass_segment_spans(10, 3, false);
    assert_eq!(spans, vec![(2, true), (1, false)]);
}

fn pack_bits(bits: &[u8]) -> Vec<u8> {
    let mut out = Vec::new();
    let mut cur: u8 = 0;
    let mut bits_used: u8 = 0;
    let mut prev_was_ff = false;
    for &bit in bits {
        if prev_was_ff && bits_used == 0 {
            cur = 0;
            bits_used = 1;
        }
        cur = (cur << 1) | (bit & 1);
        bits_used += 1;
        if bits_used == 8 {
            out.push(cur);
            prev_was_ff = cur == 0xFF;
            cur = 0;
            bits_used = 0;
        }
    }
    if bits_used != 0 {
        cur <<= 8 - bits_used;
        out.push(cur);
    }
    out
}

#[test]
fn bit_reader_reads_msb_first() {
    let mut r = PacketBitReader::new(&[0xA5]);
    let expected = [1, 0, 1, 0, 0, 1, 0, 1];
    for e in expected {
        assert_eq!(r.read_bit().unwrap(), e);
    }
    assert!(r.read_bit().is_err());
}

#[test]
fn bit_reader_skips_stuffed_zero_after_ff() {
    let mut r = PacketBitReader::new(&[0xFF, 0xA5]);
    for _ in 0..8 {
        assert_eq!(r.read_bit().unwrap(), 1);
    }
    let next_seven = [0, 1, 0, 0, 1, 0, 1];
    for e in next_seven {
        assert_eq!(r.read_bit().unwrap(), e);
    }
}

#[test]
fn bit_reader_packs_and_unpacks_roundtrip() {
    let bits = [1, 1, 1, 1, 1, 1, 1, 1, 0, 1, 1];
    let packed = pack_bits(&bits);
    assert_eq!(packed[0], 0xFF);
    let mut r = PacketBitReader::new(&packed);
    for e in bits {
        assert_eq!(r.read_bit().unwrap(), e);
    }
}

#[test]
fn tag_tree_decode_full_value() {
    let mut t = TagTree::new(1, 1);
    let bits = pack_bits(&[0, 0, 1]);
    let mut r = PacketBitReader::new(&bits);
    assert_eq!(t.decode_value(0, 0, &mut r).unwrap(), 2);
}

#[test]
fn tag_tree_decode_below_threshold_partial() {
    let mut t = TagTree::new(1, 1);
    let bits = pack_bits(&[0, 0, 0]);
    let mut r = PacketBitReader::new(&bits);
    let is_below = t.decode_below_threshold(0, 0, 3, &mut r).unwrap();
    assert!(!is_below);
}

#[test]
fn tag_tree_decode_below_threshold_true() {
    let mut t = TagTree::new(1, 1);
    let bits = pack_bits(&[1]);
    let mut r = PacketBitReader::new(&bits);
    let is_below = t.decode_below_threshold(0, 0, 1, &mut r).unwrap();
    assert!(is_below);
}

#[test]
fn tag_tree_remembers_state_across_calls() {
    let mut t = TagTree::new(1, 1);
    let bits = pack_bits(&[0, 1]);
    let mut r = PacketBitReader::new(&bits);
    let below_2 = t.decode_below_threshold(0, 0, 2, &mut r).unwrap();
    assert!(below_2);
    let below_3 = t.decode_below_threshold(0, 0, 3, &mut r).unwrap();
    assert!(below_3);
}

#[test]
fn tag_tree_2x2_decode_value() {
    let mut t = TagTree::new(2, 2);
    let bits = pack_bits(&[0, 0, 1, 1, 0, 1]);
    let mut r = PacketBitReader::new(&bits);
    let v00 = t.decode_value(0, 0, &mut r).unwrap();
    assert_eq!(v00, 2);
    let v10 = t.decode_value(1, 0, &mut r).unwrap();
    assert_eq!(v10, 3);
}

#[test]
fn coding_passes_1_through_5() {
    for (bits, expected) in [
        (vec![0u8], 1),
        (vec![1, 0], 2),
        (vec![1, 1, 0, 0], 3),
        (vec![1, 1, 0, 1], 4),
        (vec![1, 1, 1, 0], 5),
    ] {
        let packed = pack_bits(&bits);
        let mut r = PacketBitReader::new(&packed);
        assert_eq!(decode_coding_passes(&mut r).unwrap(), expected);
    }
}

#[test]
fn coding_passes_6_through_36() {
    for value in [6u32, 7, 20, 35, 36] {
        let a = value - 6;
        let mut bits = vec![1u8, 1, 1, 1];
        for shift in (0..5).rev() {
            bits.push(((a >> shift) & 1) as u8);
        }
        let packed = pack_bits(&bits);
        let mut r = PacketBitReader::new(&packed);
        assert_eq!(decode_coding_passes(&mut r).unwrap(), value);
    }
}

#[test]
fn coding_passes_37_through_164() {
    for value in [37u32, 38, 100, 163, 164] {
        let b = value - 37;
        let mut bits = vec![1u8, 1, 1, 1, 1, 1, 1, 1, 1];
        for shift in (0..7).rev() {
            bits.push(((b >> shift) & 1) as u8);
        }
        let packed = pack_bits(&bits);
        let mut r = PacketBitReader::new(&packed);
        assert_eq!(decode_coding_passes(&mut r).unwrap(), value);
    }
}

#[test]
fn segment_length_initial_lblock_no_increment() {
    let bits = vec![0u8, 1, 0, 1];
    let packed = pack_bits(&bits);
    let mut r = PacketBitReader::new(&packed);
    let mut st = LblockState::default();
    let len = decode_segment_length(&mut st, 1, &mut r).unwrap();
    assert_eq!(len, 5);
    assert_eq!(st.lblock, 3);
}

#[test]
fn segment_length_with_lblock_increment() {
    let bits = vec![1u8, 1, 0, 1, 0, 0, 0, 1];
    let packed = pack_bits(&bits);
    let mut r = PacketBitReader::new(&packed);
    let mut st = LblockState::default();
    let len = decode_segment_length(&mut st, 1, &mut r).unwrap();
    assert_eq!(len, 17);
    assert_eq!(st.lblock, 5);
}

#[test]
fn segment_length_with_multiple_passes_extra_bits() {
    let bits = vec![0u8, 1, 1, 0, 0];
    let packed = pack_bits(&bits);
    let mut r = PacketBitReader::new(&packed);
    let mut st = LblockState::default();
    let len = decode_segment_length(&mut st, 3, &mut r).unwrap();
    assert_eq!(len, 12);
    assert_eq!(st.lblock, 3);
}

#[test]
fn empty_packet_consumes_one_byte() {
    let bits = vec![0u8];
    let packed = pack_bits(&bits);
    let mut state = PrecinctState::new();
    let geom = PacketGeometry {
        sub_bands: vec![SubBandGeometry {
            width: 1,
            height: 1,
        }],
        layer: 0,
    };
    let h = decode_packet_header(
        &packed,
        &geom,
        &mut state,
        SopEphMode::Neither,
        SegmentSplit::Single,
    )
    .unwrap();
    assert!(!h.non_zero_length);
    assert!(h.contributions.is_empty());
    assert_eq!(h.bytes_consumed, packed.len());
    assert_eq!(h.total_body_bytes(), 0);
}

#[test]
fn single_codeblock_first_inclusion() {
    let bits = vec![1u8, 1, 1, 0, 0, 1, 0, 1];
    let packed = pack_bits(&bits);
    let geom = PacketGeometry {
        sub_bands: vec![SubBandGeometry {
            width: 1,
            height: 1,
        }],
        layer: 0,
    };
    let mut state = PrecinctState::new();
    let h = decode_packet_header(
        &packed,
        &geom,
        &mut state,
        SopEphMode::Neither,
        SegmentSplit::Single,
    )
    .unwrap();
    assert!(h.non_zero_length);
    assert_eq!(h.contributions.len(), 1);
    let c = &h.contributions[0];
    assert!(c.included);
    assert_eq!(c.coding_passes, 1);
    assert_eq!(c.segment_lengths, vec![5]);
    assert_eq!(c.zero_bit_planes, Some(0));
    assert_eq!(h.total_body_bytes(), 5);
    assert!(state.sub_bands[0].already_included[0]);
}

#[test]
fn per_pass_split_reads_one_length_per_pass() {
    let bits = vec![
        1u8,
        1,
        1,
        1, 1, 0, 0,
        0,
        1, 0, 1,
        0, 1, 1,
        1, 0, 0,
    ];
    let packed = pack_bits(&bits);
    let geom = PacketGeometry {
        sub_bands: vec![SubBandGeometry {
            width: 1,
            height: 1,
        }],
        layer: 0,
    };
    let mut state = PrecinctState::new();
    let h = decode_packet_header(
        &packed,
        &geom,
        &mut state,
        SopEphMode::Neither,
        SegmentSplit::PerPass,
    )
    .unwrap();
    assert!(h.non_zero_length);
    let c = &h.contributions[0];
    assert!(c.included);
    assert_eq!(c.coding_passes, 3);
    assert_eq!(c.segment_lengths, vec![5, 3, 4]);
    assert_eq!(c.zero_bit_planes, Some(0));
    assert_eq!(h.total_body_bytes(), 12);
    assert_eq!(state.sub_bands[0].lblock[0].lblock, 3);
}

#[test]
fn per_pass_split_single_prefix_then_widened_lblock() {
    let bits = vec![
        1u8, 1, 1,
        1, 0,
        1, 0,
        0, 1, 1, 0,
        1, 0, 0, 1,
    ];
    let packed = pack_bits(&bits);
    let geom = PacketGeometry {
        sub_bands: vec![SubBandGeometry {
            width: 1,
            height: 1,
        }],
        layer: 0,
    };
    let mut state = PrecinctState::new();
    let h = decode_packet_header(
        &packed,
        &geom,
        &mut state,
        SopEphMode::Neither,
        SegmentSplit::PerPass,
    )
    .unwrap();
    let c = &h.contributions[0];
    assert_eq!(c.coding_passes, 2);
    assert_eq!(c.segment_lengths, vec![6, 9]);
    assert_eq!(state.sub_bands[0].lblock[0].lblock, 4);
}

#[test]
fn already_included_uses_one_bit_inclusion() {
    let geom = PacketGeometry {
        sub_bands: vec![SubBandGeometry {
            width: 1,
            height: 1,
        }],
        layer: 1,
    };
    let mut state = PrecinctState::new();
    state.ensure_layout(&geom).unwrap();
    state.sub_bands[0].already_included[0] = true;
    let bits = vec![1u8, 1, 0, 0, 0, 1, 1];
    let packed = pack_bits(&bits);
    let h = decode_packet_header(
        &packed,
        &geom,
        &mut state,
        SopEphMode::Neither,
        SegmentSplit::Single,
    )
    .unwrap();
    assert!(h.non_zero_length);
    let c = &h.contributions[0];
    assert!(c.included);
    assert!(c.zero_bit_planes.is_none());
    assert_eq!(c.coding_passes, 1);
    assert_eq!(c.segment_lengths, vec![3]);
}

#[test]
fn not_yet_included_partial_tag_tree() {
    let bits = vec![1u8, 0];
    let packed = pack_bits(&bits);
    let geom = PacketGeometry {
        sub_bands: vec![SubBandGeometry {
            width: 1,
            height: 1,
        }],
        layer: 0,
    };
    let mut state = PrecinctState::new();
    let h = decode_packet_header(
        &packed,
        &geom,
        &mut state,
        SopEphMode::Neither,
        SegmentSplit::Single,
    )
    .unwrap();
    assert!(h.non_zero_length);
    let c = &h.contributions[0];
    assert!(!c.included);
    assert_eq!(c.segment_lengths, Vec::<u32>::new());
    assert_eq!(c.coding_passes, 0);
    assert!(!state.sub_bands[0].already_included[0]);
}

#[test]
fn walk_two_packets_same_precinct_inclusion_persists() {
    let mut all = Vec::new();
    all.extend(&pack_bits(&[1, 1, 1, 0, 0, 1, 0, 1]));
    all.extend([0u8; 5]);
    all.extend(&pack_bits(&[1, 1, 0, 0, 0, 1, 0]));
    all.extend([0u8; 2]);

    let g0 = PacketGeometry {
        sub_bands: vec![SubBandGeometry {
            width: 1,
            height: 1,
        }],
        layer: 0,
    };
    let g1 = PacketGeometry {
        sub_bands: vec![SubBandGeometry {
            width: 1,
            height: 1,
        }],
        layer: 1,
    };
    let headers = walk_packet_headers(
        &all,
        &[
            (0usize, g0.clone(), SegmentSplit::Single),
            (0usize, g1.clone(), SegmentSplit::Single),
        ],
        SopEphMode::Neither,
    )
    .unwrap();
    assert_eq!(headers.len(), 2);
    assert!(headers[0].non_zero_length);
    assert!(headers[1].non_zero_length);
    assert_eq!(headers[0].contributions[0].segment_lengths, vec![5]);
    assert_eq!(headers[1].contributions[0].segment_lengths, vec![2]);
    assert!(headers[1].contributions[0].zero_bit_planes.is_none());
}

#[test]
fn separate_walk_matches_inline_two_packets() {
    let h0 = pack_bits(&[1, 1, 1, 0, 0, 1, 0, 1]);
    let d0 = [0xAAu8; 5];
    let h1 = pack_bits(&[1, 1, 0, 0, 0, 1, 0]);
    let d1 = [0xBBu8; 2];

    let mut inline = Vec::new();
    inline.extend_from_slice(&h0);
    inline.extend_from_slice(&d0);
    inline.extend_from_slice(&h1);
    inline.extend_from_slice(&d1);

    let mut header_buf = Vec::new();
    header_buf.extend_from_slice(&h0);
    header_buf.extend_from_slice(&h1);
    let mut data_buf = Vec::new();
    data_buf.extend_from_slice(&d0);
    data_buf.extend_from_slice(&d1);

    let g = |layer| PacketGeometry {
        sub_bands: vec![SubBandGeometry {
            width: 1,
            height: 1,
        }],
        layer,
    };
    let packets = [
        (0usize, g(0), SegmentSplit::Single),
        (0usize, g(1), SegmentSplit::Single),
    ];

    let inline_headers = walk_packet_headers(&inline, &packets, SopEphMode::Neither).unwrap();
    let relocated =
        walk_packet_headers_separate(&header_buf, &data_buf, &packets, SopEphMode::Neither)
            .unwrap();

    assert_eq!(relocated.len(), inline_headers.len());
    assert_eq!(relocated[0].body_offset, 0);
    assert_eq!(relocated[1].body_offset, 5);
    for (rp, ih) in relocated.iter().zip(inline_headers.iter()) {
        assert_eq!(rp.header.non_zero_length, ih.non_zero_length);
        assert_eq!(rp.header.contributions.len(), ih.contributions.len());
        for (rc, ic) in rp.header.contributions.iter().zip(ih.contributions.iter()) {
            assert_eq!(rc.included, ic.included);
            assert_eq!(rc.segment_lengths, ic.segment_lengths);
            assert_eq!(rc.coding_passes, ic.coding_passes);
            assert_eq!(rc.zero_bit_planes, ic.zero_bit_planes);
        }
    }
}

#[test]
fn separate_walk_sop_in_body_eph_in_header() {
    let header_bits = pack_bits(&[1, 1, 1, 0, 0, 1, 0, 0]);
    let mut header_buf = header_bits;
    header_buf.extend_from_slice(&[0xFF, 0x92]);

    let mut data_buf = vec![0xFFu8, 0x91, 0x00, 0x04, 0x00, 0x00];
    data_buf.extend_from_slice(&[0xCCu8; 4]);

    let geom = PacketGeometry {
        sub_bands: vec![SubBandGeometry {
            width: 1,
            height: 1,
        }],
        layer: 0,
    };
    let relocated = walk_packet_headers_separate(
        &header_buf,
        &data_buf,
        &[(0usize, geom, SegmentSplit::Single)],
        SopEphMode::SopAndEph,
    )
    .unwrap();
    assert_eq!(relocated.len(), 1);
    assert_eq!(relocated[0].body_offset, 6);
    assert!(relocated[0].header.non_zero_length);
    assert_eq!(
        relocated[0].header.contributions[0].segment_lengths,
        vec![4]
    );
}

#[test]
fn separate_walk_rejects_wrong_body_nsop() {
    let header_buf = pack_bits(&[0]);
    let data_buf = vec![0xFFu8, 0x91, 0x00, 0x04, 0x00, 0x07];
    let geom = PacketGeometry {
        sub_bands: vec![SubBandGeometry {
            width: 1,
            height: 1,
        }],
        layer: 0,
    };
    let err = walk_packet_headers_separate(
        &header_buf,
        &data_buf,
        &[(0usize, geom, SegmentSplit::Single)],
        SopEphMode::SopAndEph,
    )
    .unwrap_err();
    assert_eq!(err, Error::InvalidPacketHeader);
}

#[test]
fn walk_rejects_overrun_against_short_body() {
    let bits = vec![1u8, 1, 1, 0, 0, 1, 0, 1];
    let mut all = pack_bits(&bits);
    all.truncate(all.len());
    let geom = PacketGeometry {
        sub_bands: vec![SubBandGeometry {
            width: 1,
            height: 1,
        }],
        layer: 0,
    };
    let err = walk_packet_headers(
        &all,
        &[(0usize, geom, SegmentSplit::Single)],
        SopEphMode::Neither,
    )
    .unwrap_err();
    assert_eq!(err, Error::PacketHeaderOverrun);
}

#[test]
fn walk_handles_three_sub_band_packet() {
    let bits = vec![1u8, 0, 1, 1, 0, 0, 1, 0, 0, 0];
    let mut packed = pack_bits(&bits);
    packed.extend([0u8; 4]);
    let geom = PacketGeometry {
        sub_bands: vec![
            SubBandGeometry {
                width: 1,
                height: 1,
            },
            SubBandGeometry {
                width: 1,
                height: 1,
            },
            SubBandGeometry {
                width: 1,
                height: 1,
            },
        ],
        layer: 0,
    };
    let mut state = PrecinctState::new();
    let h = decode_packet_header(
        &packed,
        &geom,
        &mut state,
        SopEphMode::Neither,
        SegmentSplit::Single,
    )
    .unwrap();
    assert!(h.non_zero_length);
    assert_eq!(h.contributions.len(), 3);
    assert!(!h.contributions[0].included);
    assert!(h.contributions[1].included);
    assert!(!h.contributions[2].included);
    assert_eq!(h.contributions[1].segment_lengths, vec![4]);
}

#[test]
fn sop_marker_consumed_when_enabled() {
    let mut packed = vec![0xFFu8, 0x91, 0x00, 0x04, 0x00, 0x00];
    packed.extend(&pack_bits(&[0]));
    let geom = PacketGeometry {
        sub_bands: vec![SubBandGeometry {
            width: 1,
            height: 1,
        }],
        layer: 0,
    };
    let mut state = PrecinctState::new();
    let h = decode_packet_header(
        &packed,
        &geom,
        &mut state,
        SopEphMode::SopOnly,
        SegmentSplit::Single,
    )
    .unwrap();
    assert!(!h.non_zero_length);
    assert_eq!(h.bytes_consumed, packed.len());
}

#[test]
fn peek_sop_nsop_reads_sequence_number() {
    let bytes = [0xFFu8, 0x91, 0x00, 0x04, 0x01, 0x23, 0xAA];
    assert_eq!(peek_sop_nsop(&bytes).unwrap(), Some(0x0123));
    let no_sop = pack_bits(&[1, 0, 1]);
    assert_eq!(peek_sop_nsop(&no_sop).unwrap(), None);
    assert!(peek_sop_nsop(&[0xFFu8, 0x91, 0x00]).is_err());
    assert!(peek_sop_nsop(&[0xFFu8, 0x91, 0x00, 0x06, 0x00, 0x00]).is_err());
}

fn two_sop_packets(
    nsop0: u16,
    nsop1: u16,
) -> (Vec<u8>, [(usize, PacketGeometry, SegmentSplit); 2]) {
    let mut all = Vec::new();
    all.extend([0xFFu8, 0x91, 0x00, 0x04]);
    all.extend(nsop0.to_be_bytes());
    all.extend(pack_bits(&[1, 1, 1, 0, 0, 1, 0, 1]));
    all.extend([0u8; 5]);
    all.extend([0xFFu8, 0x91, 0x00, 0x04]);
    all.extend(nsop1.to_be_bytes());
    all.extend(pack_bits(&[1, 1, 0, 0, 0, 1, 0]));
    all.extend([0u8; 2]);
    let g = |layer| PacketGeometry {
        sub_bands: vec![SubBandGeometry {
            width: 1,
            height: 1,
        }],
        layer,
    };
    (
        all,
        [
            (0usize, g(0), SegmentSplit::Single),
            (0usize, g(1), SegmentSplit::Single),
        ],
    )
}

#[test]
fn walk_validates_sequential_sop_nsop() {
    let (body, packets) = two_sop_packets(0, 1);
    let headers = walk_packet_headers(&body, &packets, SopEphMode::SopOnly).unwrap();
    assert_eq!(headers.len(), 2);
    assert!(headers[0].non_zero_length);
    assert!(headers[1].non_zero_length);
}

#[test]
fn walk_rejects_out_of_order_sop_nsop() {
    let (body, packets) = two_sop_packets(0, 5);
    assert!(walk_packet_headers(&body, &packets, SopEphMode::SopOnly).is_err());
}

#[test]
fn walk_accepts_out_of_order_nsop_when_packet_omits_sop() {
    let mut all = Vec::new();
    all.extend([0xFFu8, 0x91, 0x00, 0x04, 0x00, 0x00]);
    all.extend(pack_bits(&[1, 1, 1, 0, 0, 1, 0, 1]));
    all.extend([0u8; 5]);
    all.extend(pack_bits(&[1, 1, 0, 0, 0, 1, 0]));
    all.extend([0u8; 2]);
    let g = |layer| PacketGeometry {
        sub_bands: vec![SubBandGeometry {
            width: 1,
            height: 1,
        }],
        layer,
    };
    let headers = walk_packet_headers(
        &all,
        &[
            (0usize, g(0), SegmentSplit::Single),
            (0usize, g(1), SegmentSplit::Single),
        ],
        SopEphMode::SopOnly,
    )
    .unwrap();
    assert_eq!(headers.len(), 2);
}

#[test]
fn eph_marker_consumed_when_enabled() {
    let mut packed = pack_bits(&[0]);
    packed.extend([0xFFu8, 0x92]);
    let geom = PacketGeometry {
        sub_bands: vec![SubBandGeometry {
            width: 1,
            height: 1,
        }],
        layer: 0,
    };
    let mut state = PrecinctState::new();
    let h = decode_packet_header(
        &packed,
        &geom,
        &mut state,
        SopEphMode::EphOnly,
        SegmentSplit::Single,
    )
    .unwrap();
    assert!(!h.non_zero_length);
    assert_eq!(h.bytes_consumed, packed.len());
}

#[test]
fn precinct_state_layout_mismatch_rejected() {
    let geom1 = PacketGeometry {
        sub_bands: vec![SubBandGeometry {
            width: 1,
            height: 1,
        }],
        layer: 0,
    };
    let geom2 = PacketGeometry {
        sub_bands: vec![SubBandGeometry {
            width: 2,
            height: 2,
        }],
        layer: 1,
    };
    let mut state = PrecinctState::new();
    let bits = pack_bits(&[0]);
    decode_packet_header(
        &bits,
        &geom1,
        &mut state,
        SopEphMode::Neither,
        SegmentSplit::Single,
    )
    .unwrap();
    let err = decode_packet_header(
        &bits,
        &geom2,
        &mut state,
        SopEphMode::Neither,
        SegmentSplit::Single,
    )
    .unwrap_err();
    assert_eq!(err, Error::InvalidPacketHeader);
}

#[test]
fn bit_writer_round_trips_through_bit_reader() {
    let mut state = 0x1234_5678u32;
    let mut bits = vec![1u8; 64];
    for _ in 0..500 {
        state = state.wrapping_mul(1_664_525).wrapping_add(1_013_904_223);
        bits.push(((state >> 17) & 1) as u8);
    }
    let mut w = PacketBitWriter::new();
    for &b in &bits {
        w.write_bit(b);
    }
    let bytes = w.finish();
    let mut r = PacketBitReader::new(&bytes);
    for (i, &b) in bits.iter().enumerate() {
        assert_eq!(r.read_bit().unwrap(), b, "bit {i}");
    }
}

#[test]
fn coding_passes_codeword_round_trips() {
    for passes in 1..=164u32 {
        let mut w = PacketBitWriter::new();
        encode_coding_passes(passes, &mut w);
        let bytes = w.finish();
        let mut r = PacketBitReader::new(&bytes);
        assert_eq!(decode_coding_passes(&mut r).unwrap(), passes);
    }
}

#[test]
fn segment_length_round_trips_with_lblock_growth() {
    let seq: &[(u32, u32)] = &[
        (1, 5),
        (1, 200),
        (3, 900),
        (7, 65_000),
        (2, 1),
    ];
    let mut enc_state = LblockState::default();
    let mut w = PacketBitWriter::new();
    for &(p, len) in seq {
        encode_segment_length(&mut enc_state, p, len, &mut w);
    }
    let bytes = w.finish();
    let mut dec_state = LblockState::default();
    let mut r = PacketBitReader::new(&bytes);
    for &(p, len) in seq {
        assert_eq!(
            decode_segment_length(&mut dec_state, p, &mut r).unwrap(),
            len
        );
    }
    assert_eq!(enc_state, dec_state);
}

#[test]
fn tag_tree_encoder_round_trips_values() {
    let leaves = [3u32, 0, 5, 2, 7, 1];
    let mut enc = TagTreeEncoder::new(3, 2, &leaves);
    let mut w = PacketBitWriter::new();
    for y in 0..2 {
        for x in 0..3 {
            enc.encode_value(x, y, &mut w);
        }
    }
    let bytes = w.finish();
    let mut dec = TagTree::new(3, 2);
    let mut r = PacketBitReader::new(&bytes);
    for y in 0..2 {
        for x in 0..3 {
            assert_eq!(
                dec.decode_value(x, y, &mut r).unwrap(),
                leaves[(y * 3 + x) as usize],
                "leaf ({x},{y})"
            );
        }
    }
}

#[test]
fn tag_tree_encoder_round_trips_thresholds() {
    let leaves = [0u32, 2, 1, 3];
    let mut enc = TagTreeEncoder::new(2, 2, &leaves);
    let mut w = PacketBitWriter::new();
    let mut expect = Vec::new();
    for threshold in 1..=4u32 {
        for y in 0..2 {
            for x in 0..2 {
                enc.encode_below_threshold(x, y, threshold, &mut w);
                expect.push(leaves[(y * 2 + x) as usize] < threshold);
            }
        }
    }
    let bytes = w.finish();
    let mut dec = TagTree::new(2, 2);
    let mut r = PacketBitReader::new(&bytes);
    let mut i = 0;
    for threshold in 1..=4u32 {
        for y in 0..2 {
            for x in 0..2 {
                assert_eq!(
                    dec.decode_below_threshold(x, y, threshold, &mut r).unwrap(),
                    expect[i],
                    "query {i} (x={x} y={y} t={threshold})"
                );
                i += 1;
            }
        }
    }
}

#[test]
fn packet_header_encoder_round_trips_single_layer() {
    let geom = SubBandGeometry {
        width: 2,
        height: 2,
    };
    let first_layer = vec![0u32; 4];
    let zbp = vec![2u32, 0, 3, 1];
    let plans: Vec<CodeBlockPlan> = (0..4)
        .map(|i| CodeBlockPlan {
            included: true,
            zero_bit_planes: zbp[i],
            coding_passes: (i as u32 % 3) + 1,
            segments: vec![((i as u32 % 3) + 1, 10 + 40 * i as u32)],
        })
        .collect();
    let mut enc_state = PrecinctEncoderState::new(&[(geom, first_layer, zbp.clone())]);
    let header_bytes = encode_packet_header(&mut enc_state, 0, &plans);

    let geometry = PacketGeometry {
        sub_bands: vec![geom],
        layer: 0,
    };
    let mut dec_state = PrecinctState::new();
    let hdr = decode_packet_header(
        &header_bytes,
        &geometry,
        &mut dec_state,
        SopEphMode::Neither,
        SegmentSplit::Single,
    )
    .unwrap();
    assert!(hdr.non_zero_length);
    assert_eq!(hdr.contributions.len(), 4);
    for (i, c) in hdr.contributions.iter().enumerate() {
        assert!(c.included, "block {i}");
        assert_eq!(c.zero_bit_planes, Some(zbp[i]), "P block {i}");
        assert_eq!(c.coding_passes, plans[i].coding_passes, "passes {i}");
        assert_eq!(c.segment_lengths, vec![plans[i].segments[0].1]);
    }
    assert_eq!(hdr.bytes_consumed, header_bytes.len());
}

#[test]
fn packet_header_encoder_round_trips_multi_layer_staggered() {
    let g0 = SubBandGeometry {
        width: 2,
        height: 1,
    };
    let g1 = SubBandGeometry {
        width: 2,
        height: 2,
    };
    let fl0 = vec![0u32, 1];
    let fl1 = vec![1u32, 0, 2, 3];
    let zbp0 = vec![1u32, 0];
    let zbp1 = vec![0u32, 2, 1, 0];
    let mut enc_state = PrecinctEncoderState::new(&[
        (g0, fl0.clone(), zbp0.clone()),
        (g1, fl1.clone(), zbp1.clone()),
    ]);

    let all_fl = [fl0.clone(), fl1.clone()].concat();
    let all_zbp = [zbp0.clone(), zbp1.clone()].concat();
    let mut headers = Vec::new();
    type BlockTruth = (bool, Option<u32>, u32, u32);
    let mut truth: Vec<Vec<BlockTruth>> = Vec::new();
    for layer in 0..3u16 {
        let mut plans = Vec::new();
        let mut layer_truth = Vec::new();
        for i in 0..6usize {
            let included = all_fl[i] <= layer as u32;
            let first_time = all_fl[i] == layer as u32;
            let passes = if included {
                1 + (i as u32 + layer as u32) % 4
            } else {
                0
            };
            let seg = if included {
                5 + 13 * i as u32 + 100 * layer as u32
            } else {
                0
            };
            plans.push(CodeBlockPlan {
                included,
                zero_bit_planes: all_zbp[i],
                coding_passes: passes,
                segments: if included {
                    vec![(passes, seg)]
                } else {
                    Vec::new()
                },
            });
            layer_truth.push((
                included,
                if first_time { Some(all_zbp[i]) } else { None },
                passes,
                seg,
            ));
        }
        headers.push(encode_packet_header(&mut enc_state, layer, &plans));
        truth.push(layer_truth);
    }

    let mut dec_state = PrecinctState::new();
    for layer in 0..3usize {
        let geometry = PacketGeometry {
            sub_bands: vec![g0, g1],
            layer: layer as u16,
        };
        let hdr = decode_packet_header(
            &headers[layer],
            &geometry,
            &mut dec_state,
            SopEphMode::Neither,
            SegmentSplit::Single,
        )
        .unwrap();
        assert_eq!(hdr.contributions.len(), 6, "layer {layer}");
        for (i, c) in hdr.contributions.iter().enumerate() {
            let (included, p, passes, seg) = truth[layer][i];
            assert_eq!(c.included, included, "layer {layer} block {i}");
            assert_eq!(c.zero_bit_planes, p, "layer {layer} block {i} P");
            assert_eq!(c.coding_passes, passes, "layer {layer} block {i}");
            if included {
                assert_eq!(c.segment_lengths, vec![seg], "layer {layer} block {i}");
            } else {
                assert!(c.segment_lengths.is_empty());
            }
        }
        assert_eq!(hdr.bytes_consumed, headers[layer].len(), "layer {layer}");
    }
}

#[test]
fn packet_header_encoder_empty_packet() {
    let geom = SubBandGeometry {
        width: 1,
        height: 1,
    };
    let mut enc_state = PrecinctEncoderState::new(&[(geom, vec![5u32], vec![0u32])]);
    let plans = vec![CodeBlockPlan {
        included: false,
        zero_bit_planes: 0,
        coding_passes: 0,
        segments: Vec::new(),
    }];
    let bytes = encode_packet_header(&mut enc_state, 0, &plans);
    assert_eq!(bytes.len(), 1);
    let geometry = PacketGeometry {
        sub_bands: vec![geom],
        layer: 0,
    };
    let mut dec_state = PrecinctState::new();
    let hdr = decode_packet_header(
        &bytes,
        &geometry,
        &mut dec_state,
        SopEphMode::Neither,
        SegmentSplit::Single,
    )
    .unwrap();
    assert!(!hdr.non_zero_length);
    assert!(hdr.contributions.is_empty());
}
