use oxideav_jpeg2000::dequant::StepSize;
use oxideav_jpeg2000::dwt::Interleaved2D;
use oxideav_jpeg2000::geometry::{
    PrecinctCodeBlock, ResolutionLevel, SubBand, SubBandOrientation,
};
use oxideav_jpeg2000::reassemble::{
    idwt, reassemble_resolution, reassemble_subband, BlockSource, CodedCodeBlock,
    ResolutionArrays, ResolutionArrays5x3, SubBandQuantization,
};
use oxideav_jpeg2000::t1::{CodeBlock, Coefficient};
use oxideav_jpeg2000::Error;

/// What a coefficient becomes on the reversible path (T.800 Equations E-7 and E-8).
fn reversible(qb: i64, mb: u32, nb: u32, r: f64) -> i32 {
    let lift = if qb == 0 || nb >= mb { 0.0 } else { r * 2f64.powi((mb - nb) as i32) };
    (qb as f64 + lift * qb.signum() as f64) as i32
}

/// What a coefficient becomes on the irreversible path (T.800 Equation E-6).
fn irreversible(qb: i64, q: SubBandQuantization, nb: u32, r: f64) -> f64 {
    let delta = 2f64.powi(q.rb as i32 - i32::from(q.step.epsilon))
        * (1.0 + f64::from(q.step.mantissa) / 2048.0);
    let lift = if qb == 0 { 0.0 } else { r * 2f64.powi(q.mb as i32 - nb as i32) };
    (qb as f64 + lift * qb.signum() as f64) * delta
}

fn reassemble_subband_5x3(
    band: &SubBand,
    blocks: &[CodedCodeBlock<'_>],
    mb: u32,
    r: f64,
) -> Result<Vec<i32>, Error> {
    reassemble_subband(band, blocks, mb, 0, &|mb: u32, c, n| reversible(c, mb, n, r))
}

fn reassemble_subband_9x7(
    band: &SubBand,
    blocks: &[CodedCodeBlock<'_>],
    quant: SubBandQuantization,
    r: f64,
) -> Result<Vec<f64>, Error> {
    reassemble_subband(band, blocks, quant, 0.0, &|q: SubBandQuantization, c, n| {
        irreversible(c, q, n, r)
    })
}

fn reassemble_resolution_5x3<'a, S: BlockSource<'a>>(
    level: &ResolutionLevel,
    source: &S,
    mb_per_band: &[u32],
    r: f64,
) -> Result<ResolutionArrays5x3, Error> {
    reassemble_resolution(level, source, mb_per_band, 0, &|mb: u32, c, n| {
        reversible(c, mb, n, r)
    })
}

fn idwt_5x3<'a, S: BlockSource<'a>>(
    levels: &[ResolutionLevel],
    source: &S,
    mb_per_level: &[Vec<u32>],
    r: f64,
) -> Result<Interleaved2D<i32>, Error> {
    idwt(
        levels,
        source,
        mb_per_level,
        0,
        &|mb: u32, c, n| reversible(c, mb, n, r),
        &sr_2d_5x3,
    )
}

fn idwt_9x7<'a, S: BlockSource<'a>>(
    levels: &[ResolutionLevel],
    source: &S,
    quant_per_level: &[Vec<SubBandQuantization>],
    r: f64,
) -> Result<Interleaved2D<f64>, Error> {
    idwt(
        levels,
        source,
        quant_per_level,
        0.0,
        &|q: SubBandQuantization, c, n| irreversible(c, q, n, r),
        &|_: &ResolutionArrays<f64>, _, _| Err(Error::NotImplemented),
    )
}

/// One line of the inverse 5-3 filter (T.800 §F.3.8.2): `line` starts at coordinate `i0`,
/// low-pass samples at even coordinates.
fn filter_5x3(line: &mut [i32], i0: i32) {
    let n = line.len() as i32;
    if n == 1 {
        if i0 % 2 != 0 {
            line[0] /= 2;
        }
        return;
    }
    let mirror = |k: i32| -> usize {
        let period = 2 * (n - 1);
        let m = k.rem_euclid(period);
        if m < n { m as usize } else { (period - m) as usize }
    };
    let even = |k: i32| (i0 + k) % 2 == 0;
    for k in (0..n).filter(|&k| even(k)) {
        let sum = line[mirror(k - 1)] + line[mirror(k + 1)] + 2;
        line[k as usize] -= sum.div_euclid(4);
    }
    for k in (0..n).filter(|&k| !even(k)) {
        let sum = line[mirror(k - 1)] + line[mirror(k + 1)];
        line[k as usize] += sum.div_euclid(2);
    }
}

/// Reconstructs a resolution level from its four sub-bands with the reversible filter.
fn sr_2d_5x3(
    a: &ResolutionArrays<i32>,
    i0: i32,
    j0: i32,
) -> Result<Interleaved2D<i32>, Error> {
    let width = a.ll_dims.0 + a.hl_dims.0;
    let height = a.ll_dims.1 + a.lh_dims.1;
    let mut data = vec![0_i32; width * height];
    for y in 0..height {
        for x in 0..width {
            let (low_x, low_y) = ((i0 + x as i32) % 2 == 0, (j0 + y as i32) % 2 == 0);
            let (band, dims) = match (low_x, low_y) {
                (true, true) => (&a.ll, a.ll_dims),
                (false, true) => (&a.hl, a.hl_dims),
                (true, false) => (&a.lh, a.lh_dims),
                (false, false) => (&a.hh, a.hh_dims),
            };
            data[y * width + x] = band[y / 2 * dims.0 + x / 2];
        }
    }
    for row in data.chunks_mut(width) {
        filter_5x3(row, i0);
    }
    for x in 0..width {
        let mut column: Vec<i32> = (0..height).map(|y| data[y * width + x]).collect();
        filter_5x3(&mut column, j0);
        for (y, v) in column.into_iter().enumerate() {
            data[y * width + x] = v;
        }
    }
    Ok(Interleaved2D { data, width, height })
}

fn make_block(
    orientation: SubBandOrientation,
    width: usize,
    height: usize,
    entries: &[(u32, bool)],
) -> CodeBlock {
    assert_eq!(entries.len(), width * height);
    let coefficients: Vec<Coefficient> = entries
        .iter()
        .map(|&(mag, sign)| Coefficient {
            magnitude: mag,
            sigma: mag != 0,
            sign,
            already_refined: false,
        })
        .collect();
    CodeBlock::from_coefficients(orientation, width, height, coefficients)
}

#[test]
fn quantization_resolve_ll_at_8bit_no_guard_overflow() {
    let step = StepSize {
        epsilon: 8,
        mantissa: 0,
    };
    let q = SubBandQuantization::resolve(8, 1, SubBandOrientation::LL, step).unwrap();
    assert_eq!(q.mb, 8);
    assert_eq!(q.rb, 8);
}

#[test]
fn quantization_resolve_hh_lifts_rb_by_two() {
    let step = StepSize {
        epsilon: 8,
        mantissa: 0,
    };
    let q = SubBandQuantization::resolve(8, 1, SubBandOrientation::HH, step).unwrap();
    assert_eq!(q.rb, 10);
}

#[test]
fn scatter_one_block_into_single_sub_band() {
    let band = SubBand {
        orientation: SubBandOrientation::LL,
        nb: 1,
        tbx0: 0,
        tby0: 0,
        tbx1: 4,
        tby1: 2,
    };
    let entries = [
        (1, false),
        (0, false),
        (3, false),
        (2, true),
        (0, false),
        (5, false),
        (7, true),
        (1, false),
    ];
    let block = make_block(SubBandOrientation::LL, 4, 2, &entries);
    let placement = PrecinctCodeBlock {
        cbx: 0,
        cby: 0,
        x0: 0,
        y0: 0,
        x1: 4,
        y1: 2,
    };
    let blocks = [CodedCodeBlock {
        placement,
        coefficients: &block,
        nb: 8,
    }];
    let out = reassemble_subband_5x3(&band, &blocks, 8, 0.5).unwrap();
    assert_eq!(out, vec![1, 0, 3, -2, 0, 5, -7, 1]);
}

#[test]
fn scatter_two_blocks_side_by_side_no_overlap() {
    let band = SubBand {
        orientation: SubBandOrientation::LL,
        nb: 1,
        tbx0: 0,
        tby0: 0,
        tbx1: 4,
        tby1: 2,
    };
    let left = make_block(
        SubBandOrientation::LL,
        2,
        2,
        &[(10, false), (11, false), (12, false), (13, false)],
    );
    let right = make_block(
        SubBandOrientation::LL,
        2,
        2,
        &[(20, true), (21, false), (22, false), (23, true)],
    );
    let blocks = [
        CodedCodeBlock {
            placement: PrecinctCodeBlock {
                cbx: 0,
                cby: 0,
                x0: 0,
                y0: 0,
                x1: 2,
                y1: 2,
            },
            coefficients: &left,
            nb: 8,
        },
        CodedCodeBlock {
            placement: PrecinctCodeBlock {
                cbx: 1,
                cby: 0,
                x0: 2,
                y0: 0,
                x1: 4,
                y1: 2,
            },
            coefficients: &right,
            nb: 8,
        },
    ];
    let out = reassemble_subband_5x3(&band, &blocks, 8, 0.5).unwrap();
    assert_eq!(out, vec![10, 11, -20, 21, 12, 13, 22, -23]);
}

#[test]
fn scatter_with_non_zero_band_origin() {
    let band = SubBand {
        orientation: SubBandOrientation::HL,
        nb: 1,
        tbx0: 5,
        tby0: 3,
        tbx1: 8,
        tby1: 5,
    };
    let block = make_block(
        SubBandOrientation::HL,
        3,
        2,
        &[
            (1, false),
            (2, false),
            (3, false),
            (4, false),
            (5, false),
            (6, false),
        ],
    );
    let blocks = [CodedCodeBlock {
        placement: PrecinctCodeBlock {
            cbx: 0,
            cby: 0,
            x0: 5,
            y0: 3,
            x1: 8,
            y1: 5,
        },
        coefficients: &block,
        nb: 8,
    }];
    let out = reassemble_subband_5x3(&band, &blocks, 8, 0.5).unwrap();
    assert_eq!(out, vec![1, 2, 3, 4, 5, 6]);
}

#[test]
fn scatter_truncated_block_midpoint_lifts_magnitudes() {
    let band = SubBand {
        orientation: SubBandOrientation::LL,
        nb: 1,
        tbx0: 0,
        tby0: 0,
        tbx1: 1,
        tby1: 2,
    };
    let block = make_block(SubBandOrientation::LL, 1, 2, &[(4, false), (4, true)]);
    let blocks = [CodedCodeBlock {
        placement: PrecinctCodeBlock {
            cbx: 0,
            cby: 0,
            x0: 0,
            y0: 0,
            x1: 1,
            y1: 2,
        },
        coefficients: &block,
        nb: 3,
    }];
    let out = reassemble_subband_5x3(&band, &blocks, 5, 0.5).unwrap();
    assert_eq!(out, vec![6, -6]);
}

#[test]
fn scatter_block_outside_band_rejected() {
    let band = SubBand {
        orientation: SubBandOrientation::LL,
        nb: 1,
        tbx0: 0,
        tby0: 0,
        tbx1: 4,
        tby1: 2,
    };
    let block = make_block(
        SubBandOrientation::LL,
        2,
        2,
        &[(1, false), (1, false), (1, false), (1, false)],
    );
    let blocks = [CodedCodeBlock {
        placement: PrecinctCodeBlock {
            cbx: 0,
            cby: 0,
            x0: 3,
            y0: 0,
            x1: 5,
            y1: 2,
        },
        coefficients: &block,
        nb: 8,
    }];
    let res = reassemble_subband_5x3(&band, &blocks, 8, 0.5);
    assert_eq!(res, Err(Error::InvalidMarkerLength));
}

#[test]
fn scatter_orientation_mismatch_rejected() {
    let band = SubBand {
        orientation: SubBandOrientation::HL,
        nb: 1,
        tbx0: 0,
        tby0: 0,
        tbx1: 2,
        tby1: 2,
    };
    let block = make_block(
        SubBandOrientation::LL,
        2,
        2,
        &[(1, false), (1, false), (1, false), (1, false)],
    );
    let blocks = [CodedCodeBlock {
        placement: PrecinctCodeBlock {
            cbx: 0,
            cby: 0,
            x0: 0,
            y0: 0,
            x1: 2,
            y1: 2,
        },
        coefficients: &block,
        nb: 8,
    }];
    let res = reassemble_subband_5x3(&band, &blocks, 8, 0.5);
    assert_eq!(res, Err(Error::InvalidMarkerLength));
}

#[test]
fn scatter_block_dim_mismatch_rejected() {
    let band = SubBand {
        orientation: SubBandOrientation::LL,
        nb: 1,
        tbx0: 0,
        tby0: 0,
        tbx1: 4,
        tby1: 4,
    };
    let block = make_block(SubBandOrientation::LL, 1, 1, &[(1, false)]);
    let blocks = [CodedCodeBlock {
        placement: PrecinctCodeBlock {
            cbx: 0,
            cby: 0,
            x0: 0,
            y0: 0,
            x1: 2,
            y1: 2,
        },
        coefficients: &block,
        nb: 8,
    }];
    let res = reassemble_subband_5x3(&band, &blocks, 8, 0.5);
    assert_eq!(res, Err(Error::InvalidMarkerLength));
}

#[test]
fn scatter_overlapping_blocks_rejected() {
    let band = SubBand {
        orientation: SubBandOrientation::LL,
        nb: 1,
        tbx0: 0,
        tby0: 0,
        tbx1: 4,
        tby1: 2,
    };
    let block = make_block(SubBandOrientation::LL, 3, 2, &[(1, false); 6]);
    let blocks = [
        CodedCodeBlock {
            placement: PrecinctCodeBlock {
                cbx: 0,
                cby: 0,
                x0: 0,
                y0: 0,
                x1: 3,
                y1: 2,
            },
            coefficients: &block,
            nb: 8,
        },
        CodedCodeBlock {
            placement: PrecinctCodeBlock {
                cbx: 1,
                cby: 0,
                x0: 1,
                y0: 0,
                x1: 4,
                y1: 2,
            },
            coefficients: &block,
            nb: 8,
        },
    ];
    let res = reassemble_subband_5x3(&band, &blocks, 8, 0.5);
    assert_eq!(res, Err(Error::InvalidMarkerLength));
}

#[test]
fn scatter_empty_band_returns_empty_vec() {
    let band = SubBand {
        orientation: SubBandOrientation::LL,
        nb: 1,
        tbx0: 5,
        tby0: 5,
        tbx1: 5,
        tby1: 5,
    };
    let out = reassemble_subband_5x3(&band, &[], 8, 0.5).unwrap();
    assert!(out.is_empty());
}

#[test]
fn scatter_irreversible_applies_step_size() {
    let band = SubBand {
        orientation: SubBandOrientation::LL,
        nb: 1,
        tbx0: 0,
        tby0: 0,
        tbx1: 1,
        tby1: 1,
    };
    let block = make_block(SubBandOrientation::LL, 1, 1, &[(5, false)]);
    let quant = SubBandQuantization::resolve(
        8,
        1,
        SubBandOrientation::LL,
        StepSize {
            epsilon: 8,
            mantissa: 0,
        },
    )
    .unwrap();
    let blocks = [CodedCodeBlock {
        placement: PrecinctCodeBlock {
            cbx: 0,
            cby: 0,
            x0: 0,
            y0: 0,
            x1: 1,
            y1: 1,
        },
        coefficients: &block,
        nb: 8,
    }];
    let out = reassemble_subband_9x7(&band, &blocks, quant, 0.5).unwrap();
    assert_eq!(out.len(), 1);
    assert!((out[0] - 5.5).abs() < 1e-12);
}

#[test]
fn scatter_irreversible_zero_r_is_exact_integer_recovery() {
    let band = SubBand {
        orientation: SubBandOrientation::LL,
        nb: 1,
        tbx0: 0,
        tby0: 0,
        tbx1: 1,
        tby1: 1,
    };
    let block = make_block(SubBandOrientation::LL, 1, 1, &[(5, false)]);
    let quant = SubBandQuantization::resolve(
        8,
        1,
        SubBandOrientation::LL,
        StepSize {
            epsilon: 8,
            mantissa: 0,
        },
    )
    .unwrap();
    let blocks = [CodedCodeBlock {
        placement: PrecinctCodeBlock {
            cbx: 0,
            cby: 0,
            x0: 0,
            y0: 0,
            x1: 1,
            y1: 1,
        },
        coefficients: &block,
        nb: 8,
    }];
    let out = reassemble_subband_9x7(&band, &blocks, quant, 0.0).unwrap();
    assert!((out[0] - 5.0).abs() < 1e-12);
}

#[test]
fn scatter_irreversible_step_size_two() {
    let band = SubBand {
        orientation: SubBandOrientation::HL,
        nb: 1,
        tbx0: 0,
        tby0: 0,
        tbx1: 1,
        tby1: 1,
    };
    let block = make_block(SubBandOrientation::HL, 1, 1, &[(5, false)]);
    let quant = SubBandQuantization::resolve(
        8,
        1,
        SubBandOrientation::HL,
        StepSize {
            epsilon: 8,
            mantissa: 0,
        },
    )
    .unwrap();
    assert_eq!(quant.mb, 8);
    assert_eq!(quant.rb, 9);
    let blocks = [CodedCodeBlock {
        placement: PrecinctCodeBlock {
            cbx: 0,
            cby: 0,
            x0: 0,
            y0: 0,
            x1: 1,
            y1: 1,
        },
        coefficients: &block,
        nb: 8,
    }];
    let out = reassemble_subband_9x7(&band, &blocks, quant, 0.0).unwrap();
    assert!((out[0] - 10.0).abs() < 1e-12);
}

#[test]
fn scatter_irreversible_zero_coefficient_no_offset() {
    let band = SubBand {
        orientation: SubBandOrientation::LL,
        nb: 1,
        tbx0: 0,
        tby0: 0,
        tbx1: 1,
        tby1: 1,
    };
    let block = make_block(SubBandOrientation::LL, 1, 1, &[(0, false)]);
    let quant = SubBandQuantization::resolve(
        8,
        1,
        SubBandOrientation::LL,
        StepSize {
            epsilon: 8,
            mantissa: 0,
        },
    )
    .unwrap();
    let blocks = [CodedCodeBlock {
        placement: PrecinctCodeBlock {
            cbx: 0,
            cby: 0,
            x0: 0,
            y0: 0,
            x1: 1,
            y1: 1,
        },
        coefficients: &block,
        nb: 8,
    }];
    let out = reassemble_subband_9x7(&band, &blocks, quant, 0.5).unwrap();
    assert_eq!(out[0], 0.0);
}

#[test]
fn resolution_level_assembly_round_trips_5x3_constant_signal() {
    let level = ResolutionLevel {
        r: 1,
        n_l: 1,
        trx0: 0,
        try0: 0,
        trx1: 4,
        try1: 4,
        sub_bands: vec![
            SubBand {
                orientation: SubBandOrientation::HL,
                nb: 1,
                tbx0: 0,
                tby0: 0,
                tbx1: 2,
                tby1: 2,
            },
            SubBand {
                orientation: SubBandOrientation::LH,
                nb: 1,
                tbx0: 0,
                tby0: 0,
                tbx1: 2,
                tby1: 2,
            },
            SubBand {
                orientation: SubBandOrientation::HH,
                nb: 1,
                tbx0: 0,
                tby0: 0,
                tbx1: 2,
                tby1: 2,
            },
        ],
    };
    let zero_block_hl = make_block(SubBandOrientation::HL, 2, 2, &[(0, false); 4]);
    let zero_block_lh = make_block(SubBandOrientation::LH, 2, 2, &[(0, false); 4]);
    let zero_block_hh = make_block(SubBandOrientation::HH, 2, 2, &[(0, false); 4]);
    let placement = PrecinctCodeBlock {
        cbx: 0,
        cby: 0,
        x0: 0,
        y0: 0,
        x1: 2,
        y1: 2,
    };

    let hl_blocks: &[CodedCodeBlock<'_>] = &[CodedCodeBlock {
        placement,
        coefficients: &zero_block_hl,
        nb: 8,
    }];
    let lh_blocks: &[CodedCodeBlock<'_>] = &[CodedCodeBlock {
        placement,
        coefficients: &zero_block_lh,
        nb: 8,
    }];
    let hh_blocks: &[CodedCodeBlock<'_>] = &[CodedCodeBlock {
        placement,
        coefficients: &zero_block_hh,
        nb: 8,
    }];
    let groups: Vec<&[CodedCodeBlock<'_>]> = vec![hl_blocks, lh_blocks, hh_blocks];
    let source = groups.as_slice();

    let arrays = reassemble_resolution_5x3(&level, &source, &[8, 8, 8], 0.5).unwrap();
    assert_eq!(arrays.hl, vec![0, 0, 0, 0]);
    assert_eq!(arrays.hl_dims, (2, 2));
    assert_eq!(arrays.lh_dims, (2, 2));
    assert_eq!(arrays.hh_dims, (2, 2));
    assert!(arrays.ll.is_empty());

    let ll = vec![5_i32; 4];
    let whole = ResolutionArrays { ll, ll_dims: (2, 2), ..arrays };
    let result = sr_2d_5x3(&whole, 0, 0).unwrap();
    for px in &result.data {
        assert_eq!(*px, 5);
    }
}

#[test]
fn resolution_level_5x3_picks_correct_band_per_orientation() {
    let level = ResolutionLevel {
        r: 1,
        n_l: 1,
        trx0: 0,
        try0: 0,
        trx1: 2,
        try1: 2,
        sub_bands: vec![
            SubBand {
                orientation: SubBandOrientation::HL,
                nb: 1,
                tbx0: 0,
                tby0: 0,
                tbx1: 1,
                tby1: 1,
            },
            SubBand {
                orientation: SubBandOrientation::LH,
                nb: 1,
                tbx0: 0,
                tby0: 0,
                tbx1: 1,
                tby1: 1,
            },
            SubBand {
                orientation: SubBandOrientation::HH,
                nb: 1,
                tbx0: 0,
                tby0: 0,
                tbx1: 1,
                tby1: 1,
            },
        ],
    };
    let block_hl = make_block(SubBandOrientation::HL, 1, 1, &[(11, false)]);
    let block_lh = make_block(SubBandOrientation::LH, 1, 1, &[(22, false)]);
    let block_hh = make_block(SubBandOrientation::HH, 1, 1, &[(33, false)]);
    let placement = PrecinctCodeBlock {
        cbx: 0,
        cby: 0,
        x0: 0,
        y0: 0,
        x1: 1,
        y1: 1,
    };

    let hl_blocks: &[CodedCodeBlock<'_>] = &[CodedCodeBlock {
        placement,
        coefficients: &block_hl,
        nb: 8,
    }];
    let lh_blocks: &[CodedCodeBlock<'_>] = &[CodedCodeBlock {
        placement,
        coefficients: &block_lh,
        nb: 8,
    }];
    let hh_blocks: &[CodedCodeBlock<'_>] = &[CodedCodeBlock {
        placement,
        coefficients: &block_hh,
        nb: 8,
    }];
    let groups: Vec<&[CodedCodeBlock<'_>]> = vec![hh_blocks, hl_blocks, lh_blocks];
    let source = groups.as_slice();
    let arrays = reassemble_resolution_5x3(&level, &source, &[8, 8, 8], 0.5).unwrap();
    assert_eq!(arrays.hl, vec![11]);
    assert_eq!(arrays.lh, vec![22]);
    assert_eq!(arrays.hh, vec![33]);
}

#[test]
fn resolution_level_5x3_mb_per_band_length_check() {
    let level = ResolutionLevel {
        r: 0,
        n_l: 1,
        trx0: 0,
        try0: 0,
        trx1: 1,
        try1: 1,
        sub_bands: vec![SubBand {
            orientation: SubBandOrientation::LL,
            nb: 1,
            tbx0: 0,
            tby0: 0,
            tbx1: 1,
            tby1: 1,
        }],
    };
    let groups: Vec<&[CodedCodeBlock<'_>]> = Vec::new();
    let source = groups.as_slice();
    let res = reassemble_resolution_5x3(&level, &source, &[8, 8], 0.5);
    assert_eq!(res, Err(Error::InvalidMarkerLength));
}

#[test]
fn idwt_5x3_nl_zero_returns_ll_unchanged() {
    let level = ResolutionLevel {
        r: 0,
        n_l: 0,
        trx0: 0,
        try0: 0,
        trx1: 4,
        try1: 2,
        sub_bands: vec![SubBand {
            orientation: SubBandOrientation::LL,
            nb: 0,
            tbx0: 0,
            tby0: 0,
            tbx1: 4,
            tby1: 2,
        }],
    };
    let block = make_block(
        SubBandOrientation::LL,
        4,
        2,
        &[
            (1, false),
            (2, false),
            (3, false),
            (4, false),
            (5, false),
            (6, false),
            (7, false),
            (8, false),
        ],
    );
    let placement = PrecinctCodeBlock {
        cbx: 0,
        cby: 0,
        x0: 0,
        y0: 0,
        x1: 4,
        y1: 2,
    };
    let blocks: &[CodedCodeBlock<'_>] = &[CodedCodeBlock {
        placement,
        coefficients: &block,
        nb: 8,
    }];
    let groups: Vec<&[CodedCodeBlock<'_>]> = vec![blocks];
    let source = groups.as_slice();
    let mb_per_level: Vec<Vec<u32>> = vec![vec![8]];
    let out = idwt_5x3(&[level], &source, &mb_per_level, 0.5).unwrap();
    assert_eq!(out.data, vec![1, 2, 3, 4, 5, 6, 7, 8]);
    assert_eq!((out.width, out.height), (4, 2));
}

#[test]
fn idwt_5x3_nl_one_constant_signal_round_trip() {
    let level0 = ResolutionLevel {
        r: 0,
        n_l: 1,
        trx0: 0,
        try0: 0,
        trx1: 2,
        try1: 2,
        sub_bands: vec![SubBand {
            orientation: SubBandOrientation::LL,
            nb: 1,
            tbx0: 0,
            tby0: 0,
            tbx1: 2,
            tby1: 2,
        }],
    };
    let level1 = ResolutionLevel {
        r: 1,
        n_l: 1,
        trx0: 0,
        try0: 0,
        trx1: 4,
        try1: 4,
        sub_bands: vec![
            SubBand {
                orientation: SubBandOrientation::HL,
                nb: 1,
                tbx0: 0,
                tby0: 0,
                tbx1: 2,
                tby1: 2,
            },
            SubBand {
                orientation: SubBandOrientation::LH,
                nb: 1,
                tbx0: 0,
                tby0: 0,
                tbx1: 2,
                tby1: 2,
            },
            SubBand {
                orientation: SubBandOrientation::HH,
                nb: 1,
                tbx0: 0,
                tby0: 0,
                tbx1: 2,
                tby1: 2,
            },
        ],
    };
    let ll_block = make_block(SubBandOrientation::LL, 2, 2, &[(5, false); 4]);
    let hl_block = make_block(SubBandOrientation::HL, 2, 2, &[(0, false); 4]);
    let lh_block = make_block(SubBandOrientation::LH, 2, 2, &[(0, false); 4]);
    let hh_block = make_block(SubBandOrientation::HH, 2, 2, &[(0, false); 4]);
    let placement = PrecinctCodeBlock {
        cbx: 0,
        cby: 0,
        x0: 0,
        y0: 0,
        x1: 2,
        y1: 2,
    };
    let ll_blocks: &[CodedCodeBlock<'_>] = &[CodedCodeBlock {
        placement,
        coefficients: &ll_block,
        nb: 8,
    }];
    let hl_blocks: &[CodedCodeBlock<'_>] = &[CodedCodeBlock {
        placement,
        coefficients: &hl_block,
        nb: 8,
    }];
    let lh_blocks: &[CodedCodeBlock<'_>] = &[CodedCodeBlock {
        placement,
        coefficients: &lh_block,
        nb: 8,
    }];
    let hh_blocks: &[CodedCodeBlock<'_>] = &[CodedCodeBlock {
        placement,
        coefficients: &hh_block,
        nb: 8,
    }];
    let groups: Vec<&[CodedCodeBlock<'_>]> = vec![ll_blocks, hl_blocks, lh_blocks, hh_blocks];
    let source = groups.as_slice();
    let mb_per_level: Vec<Vec<u32>> = vec![vec![8], vec![8, 8, 8]];
    let out = idwt_5x3(&[level0, level1], &source, &mb_per_level, 0.5).unwrap();
    assert_eq!((out.width, out.height), (4, 4));
    for px in &out.data {
        assert_eq!(*px, 5);
    }
}

#[test]
fn idwt_5x3_nl_two_constant_signal_round_trip() {
    let level0 = ResolutionLevel {
        r: 0,
        n_l: 2,
        trx0: 0,
        try0: 0,
        trx1: 2,
        try1: 2,
        sub_bands: vec![SubBand {
            orientation: SubBandOrientation::LL,
            nb: 2,
            tbx0: 0,
            tby0: 0,
            tbx1: 2,
            tby1: 2,
        }],
    };
    let level1 = ResolutionLevel {
        r: 1,
        n_l: 2,
        trx0: 0,
        try0: 0,
        trx1: 4,
        try1: 4,
        sub_bands: vec![
            SubBand {
                orientation: SubBandOrientation::HL,
                nb: 2,
                tbx0: 0,
                tby0: 0,
                tbx1: 2,
                tby1: 2,
            },
            SubBand {
                orientation: SubBandOrientation::LH,
                nb: 2,
                tbx0: 0,
                tby0: 0,
                tbx1: 2,
                tby1: 2,
            },
            SubBand {
                orientation: SubBandOrientation::HH,
                nb: 2,
                tbx0: 0,
                tby0: 0,
                tbx1: 2,
                tby1: 2,
            },
        ],
    };
    let level2 = ResolutionLevel {
        r: 2,
        n_l: 2,
        trx0: 0,
        try0: 0,
        trx1: 8,
        try1: 8,
        sub_bands: vec![
            SubBand {
                orientation: SubBandOrientation::HL,
                nb: 1,
                tbx0: 0,
                tby0: 0,
                tbx1: 4,
                tby1: 4,
            },
            SubBand {
                orientation: SubBandOrientation::LH,
                nb: 1,
                tbx0: 0,
                tby0: 0,
                tbx1: 4,
                tby1: 4,
            },
            SubBand {
                orientation: SubBandOrientation::HH,
                nb: 1,
                tbx0: 0,
                tby0: 0,
                tbx1: 4,
                tby1: 4,
            },
        ],
    };
    let ll_block = make_block(SubBandOrientation::LL, 2, 2, &[(7, false); 4]);
    let zero_2x2_hl = make_block(SubBandOrientation::HL, 2, 2, &[(0, false); 4]);
    let zero_2x2_lh = make_block(SubBandOrientation::LH, 2, 2, &[(0, false); 4]);
    let zero_2x2_hh = make_block(SubBandOrientation::HH, 2, 2, &[(0, false); 4]);
    let zero_4x4_hl = make_block(SubBandOrientation::HL, 4, 4, &[(0, false); 16]);
    let zero_4x4_lh = make_block(SubBandOrientation::LH, 4, 4, &[(0, false); 16]);
    let zero_4x4_hh = make_block(SubBandOrientation::HH, 4, 4, &[(0, false); 16]);
    let placement_2x2 = PrecinctCodeBlock {
        cbx: 0,
        cby: 0,
        x0: 0,
        y0: 0,
        x1: 2,
        y1: 2,
    };
    let placement_4x4 = PrecinctCodeBlock {
        cbx: 0,
        cby: 0,
        x0: 0,
        y0: 0,
        x1: 4,
        y1: 4,
    };
    let ll_blocks: &[CodedCodeBlock<'_>] = &[CodedCodeBlock {
        placement: placement_2x2,
        coefficients: &ll_block,
        nb: 8,
    }];
    let hl2x2_blocks: &[CodedCodeBlock<'_>] = &[CodedCodeBlock {
        placement: placement_2x2,
        coefficients: &zero_2x2_hl,
        nb: 8,
    }];
    let lh2x2_blocks: &[CodedCodeBlock<'_>] = &[CodedCodeBlock {
        placement: placement_2x2,
        coefficients: &zero_2x2_lh,
        nb: 8,
    }];
    let hh2x2_blocks: &[CodedCodeBlock<'_>] = &[CodedCodeBlock {
        placement: placement_2x2,
        coefficients: &zero_2x2_hh,
        nb: 8,
    }];
    let hl4x4_blocks: &[CodedCodeBlock<'_>] = &[CodedCodeBlock {
        placement: placement_4x4,
        coefficients: &zero_4x4_hl,
        nb: 8,
    }];
    let lh4x4_blocks: &[CodedCodeBlock<'_>] = &[CodedCodeBlock {
        placement: placement_4x4,
        coefficients: &zero_4x4_lh,
        nb: 8,
    }];
    let hh4x4_blocks: &[CodedCodeBlock<'_>] = &[CodedCodeBlock {
        placement: placement_4x4,
        coefficients: &zero_4x4_hh,
        nb: 8,
    }];
    struct PerLevelSource<'a> {
        ll: &'a [CodedCodeBlock<'a>],
        hl_r1: &'a [CodedCodeBlock<'a>],
        lh_r1: &'a [CodedCodeBlock<'a>],
        hh_r1: &'a [CodedCodeBlock<'a>],
        hl_r2: &'a [CodedCodeBlock<'a>],
        lh_r2: &'a [CodedCodeBlock<'a>],
        hh_r2: &'a [CodedCodeBlock<'a>],
    }
    impl<'a> BlockSource<'a> for PerLevelSource<'a> {
        fn blocks_for(&self, band: &SubBand) -> &[CodedCodeBlock<'a>] {
            let w = band.width();
            match band.orientation {
                SubBandOrientation::LL => self.ll,
                SubBandOrientation::HL => {
                    if w == 2 {
                        self.hl_r1
                    } else {
                        self.hl_r2
                    }
                }
                SubBandOrientation::LH => {
                    if w == 2 {
                        self.lh_r1
                    } else {
                        self.lh_r2
                    }
                }
                SubBandOrientation::HH => {
                    if w == 2 {
                        self.hh_r1
                    } else {
                        self.hh_r2
                    }
                }
            }
        }
    }
    let source = PerLevelSource {
        ll: ll_blocks,
        hl_r1: hl2x2_blocks,
        lh_r1: lh2x2_blocks,
        hh_r1: hh2x2_blocks,
        hl_r2: hl4x4_blocks,
        lh_r2: lh4x4_blocks,
        hh_r2: hh4x4_blocks,
    };
    let mb_per_level: Vec<Vec<u32>> = vec![vec![8], vec![8, 8, 8], vec![8, 8, 8]];
    let out = idwt_5x3(&[level0, level1, level2], &source, &mb_per_level, 0.5).unwrap();
    assert_eq!((out.width, out.height), (8, 8));
    for px in &out.data {
        assert_eq!(*px, 7);
    }
}

#[test]
fn idwt_5x3_rejects_mb_per_level_length_mismatch() {
    let level = ResolutionLevel {
        r: 0,
        n_l: 0,
        trx0: 0,
        try0: 0,
        trx1: 1,
        try1: 1,
        sub_bands: vec![SubBand {
            orientation: SubBandOrientation::LL,
            nb: 0,
            tbx0: 0,
            tby0: 0,
            tbx1: 1,
            tby1: 1,
        }],
    };
    let groups: Vec<&[CodedCodeBlock<'_>]> = Vec::new();
    let source = groups.as_slice();
    let mb_per_level: Vec<Vec<u32>> = Vec::new();
    let res = idwt_5x3(&[level], &source, &mb_per_level, 0.5);
    assert_eq!(res, Err(Error::InvalidMarkerLength));
}

#[test]
fn idwt_5x3_rejects_empty_levels() {
    let groups: Vec<&[CodedCodeBlock<'_>]> = Vec::new();
    let source = groups.as_slice();
    let mb_per_level: Vec<Vec<u32>> = Vec::new();
    let res = idwt_5x3(&[], &source, &mb_per_level, 0.5);
    assert_eq!(res, Err(Error::InvalidMarkerLength));
}

#[test]
fn idwt_9x7_nl_zero_returns_ll_unchanged() {
    let level = ResolutionLevel {
        r: 0,
        n_l: 0,
        trx0: 0,
        try0: 0,
        trx1: 2,
        try1: 2,
        sub_bands: vec![SubBand {
            orientation: SubBandOrientation::LL,
            nb: 0,
            tbx0: 0,
            tby0: 0,
            tbx1: 2,
            tby1: 2,
        }],
    };
    let block = make_block(
        SubBandOrientation::LL,
        2,
        2,
        &[(1, false), (2, false), (3, false), (4, false)],
    );
    let placement = PrecinctCodeBlock {
        cbx: 0,
        cby: 0,
        x0: 0,
        y0: 0,
        x1: 2,
        y1: 2,
    };
    let blocks: &[CodedCodeBlock<'_>] = &[CodedCodeBlock {
        placement,
        coefficients: &block,
        nb: 8,
    }];
    let groups: Vec<&[CodedCodeBlock<'_>]> = vec![blocks];
    let source = groups.as_slice();
    let step = StepSize {
        epsilon: 8,
        mantissa: 0,
    };
    let q = SubBandQuantization::resolve(8, 1, SubBandOrientation::LL, step).unwrap();
    let quant_per_level: Vec<Vec<SubBandQuantization>> = vec![vec![q]];
    let out = idwt_9x7(&[level], &source, &quant_per_level, 0.0).unwrap();
    assert_eq!((out.width, out.height), (2, 2));
    assert!((out.data[0] - 1.0).abs() < 1e-9);
    assert!((out.data[1] - 2.0).abs() < 1e-9);
    assert!((out.data[2] - 3.0).abs() < 1e-9);
    assert!((out.data[3] - 4.0).abs() < 1e-9);
}

#[test]
fn idwt_5x3_propagates_resolution_origin_to_sr_2d() {
    let make_level0 = |trx0: u32, try0: u32, trx1: u32, try1: u32| ResolutionLevel {
        r: 0,
        n_l: 1,
        trx0,
        try0,
        trx1,
        try1,
        sub_bands: vec![SubBand {
            orientation: SubBandOrientation::LL,
            nb: 1,
            tbx0: trx0,
            tby0: try0,
            tbx1: trx1,
            tby1: try1,
        }],
    };
    let make_level1 = |trx0: u32, try0: u32, trx1: u32, try1: u32| ResolutionLevel {
        r: 1,
        n_l: 1,
        trx0,
        try0,
        trx1,
        try1,
        sub_bands: vec![
            SubBand {
                orientation: SubBandOrientation::HL,
                nb: 1,
                tbx0: 0,
                tby0: 0,
                tbx1: 2,
                tby1: 2,
            },
            SubBand {
                orientation: SubBandOrientation::LH,
                nb: 1,
                tbx0: 0,
                tby0: 0,
                tbx1: 2,
                tby1: 2,
            },
            SubBand {
                orientation: SubBandOrientation::HH,
                nb: 1,
                tbx0: 0,
                tby0: 0,
                tbx1: 2,
                tby1: 2,
            },
        ],
    };
    let ll_block = make_block(
        SubBandOrientation::LL,
        2,
        2,
        &[(1, false), (5, false), (3, false), (7, false)],
    );
    let hl_block = make_block(SubBandOrientation::HL, 2, 2, &[(0, false); 4]);
    let lh_block = make_block(SubBandOrientation::LH, 2, 2, &[(0, false); 4]);
    let hh_block = make_block(SubBandOrientation::HH, 2, 2, &[(0, false); 4]);

    let run_cascade = |trx0_l0: u32, try0_l0: u32, trx0_l1: u32, try0_l1: u32| -> Vec<i32> {
        let level0 = make_level0(trx0_l0, try0_l0, trx0_l0 + 2, try0_l0 + 2);
        let level1 = make_level1(trx0_l1, try0_l1, trx0_l1 + 4, try0_l1 + 4);
        let ll_placement = PrecinctCodeBlock {
            cbx: 0,
            cby: 0,
            x0: trx0_l0,
            y0: try0_l0,
            x1: trx0_l0 + 2,
            y1: try0_l0 + 2,
        };
        let high_placement = PrecinctCodeBlock {
            cbx: 0,
            cby: 0,
            x0: 0,
            y0: 0,
            x1: 2,
            y1: 2,
        };
        let ll_blocks: &[CodedCodeBlock<'_>] = &[CodedCodeBlock {
            placement: ll_placement,
            coefficients: &ll_block,
            nb: 8,
        }];
        let hl_blocks: &[CodedCodeBlock<'_>] = &[CodedCodeBlock {
            placement: high_placement,
            coefficients: &hl_block,
            nb: 8,
        }];
        let lh_blocks: &[CodedCodeBlock<'_>] = &[CodedCodeBlock {
            placement: high_placement,
            coefficients: &lh_block,
            nb: 8,
        }];
        let hh_blocks: &[CodedCodeBlock<'_>] = &[CodedCodeBlock {
            placement: high_placement,
            coefficients: &hh_block,
            nb: 8,
        }];
        let groups: Vec<&[CodedCodeBlock<'_>]> =
            vec![ll_blocks, hl_blocks, lh_blocks, hh_blocks];
        let source = groups.as_slice();
        let mb_per_level: Vec<Vec<u32>> = vec![vec![8], vec![8, 8, 8]];
        let out = idwt_5x3(&[level0, level1], &source, &mb_per_level, 0.5).unwrap();
        assert_eq!((out.width, out.height), (4, 4));
        out.data
    };

    let out_even_origin = run_cascade(0, 0, 0, 0);
    let out_odd_origin = run_cascade(0, 0, 1, 0);
    assert_ne!(
        out_even_origin, out_odd_origin,
        "different (i0, j0) parities must produce different reconstructions \
         (proving idwt_5x3 forwards levels[k].trx0/try0 into sr_2d_5x3)",
    );
}
