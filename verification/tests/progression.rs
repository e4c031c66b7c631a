use oxideav_jpeg2000::progression::{
    estimate_packet_count, lrcp_packet_order, rlcp_packet_order, ComponentProgressionInfo,
    PacketDescriptor,
};
use oxideav_jpeg2000::Error;

#[test]
fn lrcp_minimal_one_packet() {
    let comps = vec![ComponentProgressionInfo {
        num_decomposition_levels: 0,
        precincts_per_resolution: vec![1],
    }];
    let out = lrcp_packet_order(1, &comps).unwrap();
    assert_eq!(out.len(), 1);
    assert_eq!(
        out[0],
        PacketDescriptor {
            layer: 0,
            resolution: 0,
            component: 0,
            precinct: 0
        }
    );
}

#[test]
fn lrcp_resolutions_in_order() {
    let comps = vec![ComponentProgressionInfo {
        num_decomposition_levels: 2,
        precincts_per_resolution: vec![1, 1, 1],
    }];
    let out = lrcp_packet_order(1, &comps).unwrap();
    let resolutions: Vec<u8> = out.iter().map(|p| p.resolution).collect();
    assert_eq!(resolutions, vec![0, 1, 2]);
}

#[test]
fn lrcp_layers_outermost() {
    let comps = vec![ComponentProgressionInfo {
        num_decomposition_levels: 0,
        precincts_per_resolution: vec![1],
    }];
    let out = lrcp_packet_order(2, &comps).unwrap();
    let layers: Vec<u16> = out.iter().map(|p| p.layer).collect();
    assert_eq!(layers, vec![0, 1]);
}

#[test]
fn lrcp_components_interleave_within_resolution() {
    let comps = vec![
        ComponentProgressionInfo {
            num_decomposition_levels: 0,
            precincts_per_resolution: vec![1],
        },
        ComponentProgressionInfo {
            num_decomposition_levels: 0,
            precincts_per_resolution: vec![1],
        },
        ComponentProgressionInfo {
            num_decomposition_levels: 0,
            precincts_per_resolution: vec![1],
        },
    ];
    let out = lrcp_packet_order(1, &comps).unwrap();
    let comps_out: Vec<u16> = out.iter().map(|p| p.component).collect();
    assert_eq!(comps_out, vec![0, 1, 2]);
}

#[test]
fn lrcp_precincts_in_raster_order_within_component() {
    let comps = vec![ComponentProgressionInfo {
        num_decomposition_levels: 0,
        precincts_per_resolution: vec![4],
    }];
    let out = lrcp_packet_order(1, &comps).unwrap();
    let ks: Vec<u32> = out.iter().map(|p| p.precinct).collect();
    assert_eq!(ks, vec![0, 1, 2, 3]);
}

#[test]
fn lrcp_full_nested_order_2_2_2_2() {
    let comps = vec![
        ComponentProgressionInfo {
            num_decomposition_levels: 1,
            precincts_per_resolution: vec![2, 2],
        },
        ComponentProgressionInfo {
            num_decomposition_levels: 1,
            precincts_per_resolution: vec![2, 2],
        },
    ];
    let out = lrcp_packet_order(2, &comps).unwrap();
    assert_eq!(out.len(), 16);

    let mut expected: Vec<PacketDescriptor> = Vec::with_capacity(16);
    for l in 0u16..2 {
        for r in 0u8..=1 {
            for i in 0u16..2 {
                for k in 0u32..2 {
                    expected.push(PacketDescriptor {
                        layer: l,
                        resolution: r,
                        component: i,
                        precinct: k,
                    });
                }
            }
        }
    }
    assert_eq!(out, expected);
}

#[test]
fn lrcp_components_with_different_nl_synchronise_at_r0() {
    let comps = vec![
        ComponentProgressionInfo {
            num_decomposition_levels: 6,
            precincts_per_resolution: vec![1; 7],
        },
        ComponentProgressionInfo {
            num_decomposition_levels: 2,
            precincts_per_resolution: vec![1; 3],
        },
    ];
    let out = lrcp_packet_order(1, &comps).unwrap();
    assert_eq!(out.len(), 10);

    let pairs: Vec<(u8, u16)> = out.iter().map(|p| (p.resolution, p.component)).collect();
    assert_eq!(
        pairs,
        vec![
            (0, 0),
            (0, 1),
            (1, 0),
            (1, 1),
            (2, 0),
            (2, 1),
            (3, 0),
            (4, 0),
            (5, 0),
            (6, 0),
        ]
    );
}

#[test]
fn lrcp_zero_precinct_resolution_emits_nothing() {
    let comps = vec![ComponentProgressionInfo {
        num_decomposition_levels: 2,
        precincts_per_resolution: vec![1, 0, 1],
    }];
    let out = lrcp_packet_order(1, &comps).unwrap();
    let rs: Vec<u8> = out.iter().map(|p| p.resolution).collect();
    assert_eq!(rs, vec![0, 2]);
}

#[test]
fn lrcp_zero_layers_emits_no_packets() {
    let comps = vec![ComponentProgressionInfo {
        num_decomposition_levels: 0,
        precincts_per_resolution: vec![1],
    }];
    let out = lrcp_packet_order(0, &comps).unwrap();
    assert!(out.is_empty());
}

#[test]
fn lrcp_empty_components_rejected() {
    let out = lrcp_packet_order(1, &[]);
    assert!(matches!(out, Err(Error::InvalidComponentCount)));
}

#[test]
fn lrcp_per_component_length_mismatch_rejected() {
    let comps = vec![ComponentProgressionInfo {
        num_decomposition_levels: 2,
        precincts_per_resolution: vec![1, 1],
    }];
    let out = lrcp_packet_order(1, &comps);
    assert!(matches!(out, Err(Error::InvalidPacketHeader)));
}

#[test]
fn precincts_at_past_top_resolution_returns_zero() {
    let ci = ComponentProgressionInfo {
        num_decomposition_levels: 1,
        precincts_per_resolution: vec![1, 2],
    };
    assert_eq!(ci.precincts_at(0), 1);
    assert_eq!(ci.precincts_at(1), 2);
    assert_eq!(ci.precincts_at(2), 0);
    assert_eq!(ci.precincts_at(255), 0);
}

#[test]
fn max_resolution_matches_nl() {
    let ci = ComponentProgressionInfo {
        num_decomposition_levels: 5,
        precincts_per_resolution: vec![1; 6],
    };
    assert_eq!(ci.max_resolution(), 5);
}

#[test]
fn lrcp_single_component_orders_l_then_r_then_k() {
    let comps = vec![ComponentProgressionInfo {
        num_decomposition_levels: 1,
        precincts_per_resolution: vec![2, 3],
    }];
    let out = lrcp_packet_order(2, &comps).unwrap();
    assert_eq!(out.len(), 10);

    let layer0: Vec<(u8, u32)> = out
        .iter()
        .filter(|p| p.layer == 0)
        .map(|p| (p.resolution, p.precinct))
        .collect();
    assert_eq!(
        layer0,
        vec![(0, 0), (0, 1), (1, 0), (1, 1), (1, 2)],
        "layer 0 emits r=0 precincts before r=1 precincts"
    );
    let layer1: Vec<(u8, u32)> = out
        .iter()
        .filter(|p| p.layer == 1)
        .map(|p| (p.resolution, p.precinct))
        .collect();
    assert_eq!(layer1, layer0, "layer 1 repeats the same (r, k) shape");
    assert!(out.iter().all(|p| p.component == 0));
}

#[test]
fn capacity_estimate_matches_output_when_no_skips() {
    let comps = vec![
        ComponentProgressionInfo {
            num_decomposition_levels: 1,
            precincts_per_resolution: vec![2, 2],
        },
        ComponentProgressionInfo {
            num_decomposition_levels: 1,
            precincts_per_resolution: vec![2, 2],
        },
    ];
    let n_max = 1;
    let est = estimate_packet_count(3, n_max, &comps);
    let out = lrcp_packet_order(3, &comps).unwrap();
    assert_eq!(est, out.len());
}

#[test]
fn lrcp_b12_note_worked_example() {
    let comps = vec![
        ComponentProgressionInfo {
            num_decomposition_levels: 6,
            precincts_per_resolution: vec![1; 7],
        },
        ComponentProgressionInfo {
            num_decomposition_levels: 2,
            precincts_per_resolution: vec![1; 3],
        },
    ];
    let out = lrcp_packet_order(1, &comps).unwrap();
    assert_eq!(out.len(), 10);
    let r3_plus: Vec<&PacketDescriptor> = out.iter().filter(|p| p.resolution >= 3).collect();
    assert!(
        r3_plus.iter().all(|p| p.component == 0),
        "components past their NL contribute nothing at higher r"
    );
    assert_eq!(r3_plus.len(), 4);
}

#[test]
fn rlcp_minimal_one_packet() {
    let comps = vec![ComponentProgressionInfo {
        num_decomposition_levels: 0,
        precincts_per_resolution: vec![1],
    }];
    let out = rlcp_packet_order(1, &comps).unwrap();
    assert_eq!(out.len(), 1);
    assert_eq!(
        out[0],
        PacketDescriptor {
            layer: 0,
            resolution: 0,
            component: 0,
            precinct: 0
        }
    );
}

#[test]
fn rlcp_resolution_outermost_layers_inner() {
    let comps = vec![ComponentProgressionInfo {
        num_decomposition_levels: 2,
        precincts_per_resolution: vec![1, 1, 1],
    }];
    let out = rlcp_packet_order(2, &comps).unwrap();
    assert_eq!(out.len(), 6);
    let rl: Vec<(u8, u16)> = out.iter().map(|p| (p.resolution, p.layer)).collect();
    assert_eq!(rl, vec![(0, 0), (0, 1), (1, 0), (1, 1), (2, 0), (2, 1)]);
}

#[test]
fn rlcp_layers_inner_within_single_resolution() {
    let comps = vec![ComponentProgressionInfo {
        num_decomposition_levels: 0,
        precincts_per_resolution: vec![1],
    }];
    let out = rlcp_packet_order(2, &comps).unwrap();
    let layers: Vec<u16> = out.iter().map(|p| p.layer).collect();
    assert_eq!(layers, vec![0, 1]);
}

#[test]
fn rlcp_components_interleave_within_layer() {
    let comps = vec![
        ComponentProgressionInfo {
            num_decomposition_levels: 0,
            precincts_per_resolution: vec![1],
        },
        ComponentProgressionInfo {
            num_decomposition_levels: 0,
            precincts_per_resolution: vec![1],
        },
        ComponentProgressionInfo {
            num_decomposition_levels: 0,
            precincts_per_resolution: vec![1],
        },
    ];
    let out = rlcp_packet_order(1, &comps).unwrap();
    let comps_out: Vec<u16> = out.iter().map(|p| p.component).collect();
    assert_eq!(comps_out, vec![0, 1, 2]);
}

#[test]
fn rlcp_precincts_in_raster_order_within_component() {
    let comps = vec![ComponentProgressionInfo {
        num_decomposition_levels: 0,
        precincts_per_resolution: vec![4],
    }];
    let out = rlcp_packet_order(1, &comps).unwrap();
    let ks: Vec<u32> = out.iter().map(|p| p.precinct).collect();
    assert_eq!(ks, vec![0, 1, 2, 3]);
}

#[test]
fn rlcp_full_nested_order_2_2_2_2() {
    let comps = vec![
        ComponentProgressionInfo {
            num_decomposition_levels: 1,
            precincts_per_resolution: vec![2, 2],
        },
        ComponentProgressionInfo {
            num_decomposition_levels: 1,
            precincts_per_resolution: vec![2, 2],
        },
    ];
    let out = rlcp_packet_order(2, &comps).unwrap();
    assert_eq!(out.len(), 16);

    let mut expected: Vec<PacketDescriptor> = Vec::with_capacity(16);
    for r in 0u8..=1 {
        for l in 0u16..2 {
            for i in 0u16..2 {
                for k in 0u32..2 {
                    expected.push(PacketDescriptor {
                        layer: l,
                        resolution: r,
                        component: i,
                        precinct: k,
                    });
                }
            }
        }
    }
    assert_eq!(out, expected);
}

#[test]
fn rlcp_components_with_different_nl_synchronise_at_r0() {
    let comps = vec![
        ComponentProgressionInfo {
            num_decomposition_levels: 6,
            precincts_per_resolution: vec![1; 7],
        },
        ComponentProgressionInfo {
            num_decomposition_levels: 2,
            precincts_per_resolution: vec![1; 3],
        },
    ];
    let out = rlcp_packet_order(1, &comps).unwrap();
    assert_eq!(out.len(), 10);
    let pairs: Vec<(u8, u16)> = out.iter().map(|p| (p.resolution, p.component)).collect();
    assert_eq!(
        pairs,
        vec![
            (0, 0),
            (0, 1),
            (1, 0),
            (1, 1),
            (2, 0),
            (2, 1),
            (3, 0),
            (4, 0),
            (5, 0),
            (6, 0),
        ]
    );
}

#[test]
fn rlcp_zero_precinct_resolution_emits_nothing() {
    let comps = vec![ComponentProgressionInfo {
        num_decomposition_levels: 2,
        precincts_per_resolution: vec![1, 0, 1],
    }];
    let out = rlcp_packet_order(1, &comps).unwrap();
    let rs: Vec<u8> = out.iter().map(|p| p.resolution).collect();
    assert_eq!(rs, vec![0, 2]);
}

#[test]
fn rlcp_zero_layers_emits_no_packets() {
    let comps = vec![ComponentProgressionInfo {
        num_decomposition_levels: 0,
        precincts_per_resolution: vec![1],
    }];
    let out = rlcp_packet_order(0, &comps).unwrap();
    assert!(out.is_empty());
}

#[test]
fn rlcp_empty_components_rejected() {
    let out = rlcp_packet_order(1, &[]);
    assert!(matches!(out, Err(Error::InvalidComponentCount)));
}

#[test]
fn rlcp_per_component_length_mismatch_rejected() {
    let comps = vec![ComponentProgressionInfo {
        num_decomposition_levels: 2,
        precincts_per_resolution: vec![1, 1],
    }];
    let out = rlcp_packet_order(1, &comps);
    assert!(matches!(out, Err(Error::InvalidPacketHeader)));
}

#[test]
fn lrcp_and_rlcp_emit_same_multiset() {
    let comps = vec![
        ComponentProgressionInfo {
            num_decomposition_levels: 2,
            precincts_per_resolution: vec![3, 2, 1],
        },
        ComponentProgressionInfo {
            num_decomposition_levels: 1,
            precincts_per_resolution: vec![2, 1],
        },
    ];
    let layers = 3;
    let mut lrcp = lrcp_packet_order(layers, &comps).unwrap();
    let mut rlcp = rlcp_packet_order(layers, &comps).unwrap();
    assert_eq!(lrcp.len(), rlcp.len());
    let key = |p: &PacketDescriptor| (p.layer, p.resolution, p.component, p.precinct);
    lrcp.sort_by_key(key);
    rlcp.sort_by_key(key);
    assert_eq!(lrcp, rlcp);
}

#[test]
fn lrcp_and_rlcp_differ_at_outer_loop() {
    let comps = vec![ComponentProgressionInfo {
        num_decomposition_levels: 1,
        precincts_per_resolution: vec![1, 1],
    }];
    let lrcp = lrcp_packet_order(2, &comps).unwrap();
    let rlcp = rlcp_packet_order(2, &comps).unwrap();
    assert_eq!(lrcp.len(), 4);
    assert_eq!(rlcp.len(), 4);
    let lrcp_lr: Vec<(u16, u8)> = lrcp.iter().map(|p| (p.layer, p.resolution)).collect();
    assert_eq!(lrcp_lr, vec![(0, 0), (0, 1), (1, 0), (1, 1)]);
    let rlcp_rl: Vec<(u8, u16)> = rlcp.iter().map(|p| (p.resolution, p.layer)).collect();
    assert_eq!(rlcp_rl, vec![(0, 0), (0, 1), (1, 0), (1, 1)]);
}

#[test]
fn rlcp_single_component_orders_r_then_l_then_k() {
    let comps = vec![ComponentProgressionInfo {
        num_decomposition_levels: 1,
        precincts_per_resolution: vec![2, 3],
    }];
    let out = rlcp_packet_order(2, &comps).unwrap();
    assert_eq!(out.len(), 10);

    let r0: Vec<(u16, u32)> = out
        .iter()
        .filter(|p| p.resolution == 0)
        .map(|p| (p.layer, p.precinct))
        .collect();
    assert_eq!(
        r0,
        vec![(0, 0), (0, 1), (1, 0), (1, 1)],
        "r=0 emits all layers (and all their precincts) before moving to r=1"
    );
    let r1: Vec<(u16, u32)> = out
        .iter()
        .filter(|p| p.resolution == 1)
        .map(|p| (p.layer, p.precinct))
        .collect();
    assert_eq!(
        r1,
        vec![(0, 0), (0, 1), (0, 2), (1, 0), (1, 1), (1, 2)],
        "r=1 emits all layers' worth of its 3 precincts"
    );
    assert!(out.iter().all(|p| p.component == 0));
}

#[test]
fn rlcp_capacity_estimate_matches_output_when_no_skips() {
    let comps = vec![
        ComponentProgressionInfo {
            num_decomposition_levels: 1,
            precincts_per_resolution: vec![2, 2],
        },
        ComponentProgressionInfo {
            num_decomposition_levels: 1,
            precincts_per_resolution: vec![2, 2],
        },
    ];
    let n_max = 1;
    let est = estimate_packet_count(3, n_max, &comps);
    let out = rlcp_packet_order(3, &comps).unwrap();
    assert_eq!(est, out.len());
}

#[test]
fn rlcp_b12_note_worked_example_two_layers() {
    let comps = vec![
        ComponentProgressionInfo {
            num_decomposition_levels: 6,
            precincts_per_resolution: vec![1; 7],
        },
        ComponentProgressionInfo {
            num_decomposition_levels: 2,
            precincts_per_resolution: vec![1; 3],
        },
    ];
    let out = rlcp_packet_order(2, &comps).unwrap();
    assert_eq!(out.len(), 20);
    let r0_block: Vec<(u16, u16)> = out
        .iter()
        .filter(|p| p.resolution == 0)
        .map(|p| (p.layer, p.component))
        .collect();
    assert_eq!(r0_block, vec![(0, 0), (0, 1), (1, 0), (1, 1)]);
    let r5_block: Vec<(u16, u16)> = out
        .iter()
        .filter(|p| p.resolution == 5)
        .map(|p| (p.layer, p.component))
        .collect();
    assert_eq!(r5_block, vec![(0, 0), (1, 0)]);
    assert!(out
        .iter()
        .filter(|p| p.resolution >= 3)
        .all(|p| p.component == 0));
}
