use oxideav_jpeg2000::codec::decode_packet;
use oxideav_jpeg2000::jp2::{
    decode_jp2, parse_jp2, ChannelDef, CmapMapping, ColrMethod, EnumCs, Ftyp, GridResolution,
    ParameterizedColour, BOX_TYPE_BPCC, BOX_TYPE_CDEF, BOX_TYPE_CMAP, BOX_TYPE_COLR, BOX_TYPE_FTYP,
    BOX_TYPE_IHDR, BOX_TYPE_JP2C, BOX_TYPE_JP2H, BOX_TYPE_JP2_SIGNATURE, BOX_TYPE_PCLR,
    BOX_TYPE_RES, BOX_TYPE_RESC, BOX_TYPE_RESD, BRAND_JP2, BRAND_JPH, JP2_SIGNATURE_MAGIC,
};
use oxideav_jpeg2000::{DecodedComponent, DecodedImage, Error};

/// A stand-in for a codestream: the samples of the planes one after the other.
fn raw_codestream(planes: &[&[u8]]) -> Vec<u8> {
    planes.concat()
}

/// Decodes what [`raw_codestream`] makes.
fn decode_raw(cs: &[u8], planes: usize, width: u32, height: u32) -> Result<DecodedImage, Error> {
    let n = (width * height) as usize;
    if cs.len() != planes * n {
        return Err(Error::UnexpectedEof);
    }
    let components = (0..planes)
        .map(|i| DecodedComponent {
            width,
            height,
            precision_bits: 8,
            is_signed: false,
            h_separation: 1,
            v_separation: 1,
            samples: cs[i * n..(i + 1) * n].iter().map(|&b| i32::from(b)).collect(),
        })
        .collect();
    Ok(DecodedImage { width, height, components })
}

fn vertical_points_per_metre(r: &GridResolution) -> f64 {
    f64::from(r.vertical_numerator) / f64::from(r.vertical_denominator)
        * 10f64.powi(i32::from(r.vertical_exponent))
}

fn horizontal_points_per_metre(r: &GridResolution) -> f64 {
    f64::from(r.horizontal_numerator) / f64::from(r.horizontal_denominator)
        * 10f64.powi(i32::from(r.horizontal_exponent))
}

fn emit_box(out: &mut Vec<u8>, box_type: u32, payload: &[u8]) {
    let total = 8 + payload.len() as u32;
    out.extend_from_slice(&total.to_be_bytes());
    out.extend_from_slice(&box_type.to_be_bytes());
    out.extend_from_slice(payload);
}

fn synth_minimal_jp2(codestream: &[u8]) -> Vec<u8> {
    let mut v = Vec::new();
    emit_box(&mut v, BOX_TYPE_JP2_SIGNATURE, &JP2_SIGNATURE_MAGIC);
    let mut ftyp_body = Vec::new();
    ftyp_body.extend_from_slice(&BRAND_JP2.to_be_bytes());
    ftyp_body.extend_from_slice(&0u32.to_be_bytes());
    ftyp_body.extend_from_slice(&BRAND_JP2.to_be_bytes());
    emit_box(&mut v, BOX_TYPE_FTYP, &ftyp_body);
    let mut jp2h_body = Vec::new();
    let mut ihdr_body = Vec::new();
    ihdr_body.extend_from_slice(&64u32.to_be_bytes());
    ihdr_body.extend_from_slice(&128u32.to_be_bytes());
    ihdr_body.extend_from_slice(&1u16.to_be_bytes());
    ihdr_body.push(7);
    ihdr_body.push(7);
    ihdr_body.push(0);
    ihdr_body.push(0);
    emit_box(&mut jp2h_body, BOX_TYPE_IHDR, &ihdr_body);
    let mut colr_body = Vec::new();
    colr_body.push(1);
    colr_body.push(0);
    colr_body.push(0);
    colr_body.extend_from_slice(&16u32.to_be_bytes());
    emit_box(&mut jp2h_body, BOX_TYPE_COLR, &colr_body);
    emit_box(&mut v, BOX_TYPE_JP2H, &jp2h_body);
    emit_box(&mut v, BOX_TYPE_JP2C, codestream);
    v
}

#[test]
fn parses_minimal_jp2() {
    let codestream = b"\xFF\x4F\xFF\xD9";
    let bytes = synth_minimal_jp2(codestream);
    let c = parse_jp2(&bytes).expect("parse jp2");
    assert_eq!(c.ftyp.brand, BRAND_JP2);
    assert!(c.ftyp.is_jp2_compatible());
    assert_eq!(c.ftyp.minor_version, 0);
    assert_eq!(c.ftyp.compatibility, vec![BRAND_JP2]);
    assert_eq!(c.header.ihdr.height, 64);
    assert_eq!(c.header.ihdr.width, 128);
    assert_eq!(c.header.ihdr.component_count, 1);
    assert_eq!(c.header.ihdr.bit_depth(), 8);
    assert!(!c.header.ihdr.is_signed());
    assert!(!c.header.ihdr.varies_in_bit_depth());
    assert!(c.header.bpcc.is_none());
    assert_eq!(c.header.colr.len(), 1);
    assert_eq!(c.header.colr[0].method, ColrMethod::Enumerated);
    assert_eq!(c.header.colr[0].enumerated, Some(EnumCs::Srgb));
    assert_eq!(c.codestream_len, codestream.len());
    assert_eq!(
        &bytes[c.codestream_offset..c.codestream_offset + c.codestream_len],
        codestream
    );
}

#[test]
fn rejects_missing_signature() {
    let codestream = b"\xFF\x4F\xFF\xD9";
    let mut bytes = synth_minimal_jp2(codestream);
    bytes[4] = 0x00;
    assert!(parse_jp2(&bytes).is_err());
}

#[test]
fn rejects_bad_signature_magic() {
    let codestream = b"\xFF\x4F\xFF\xD9";
    let mut bytes = synth_minimal_jp2(codestream);
    bytes[8] = 0x00;
    assert!(parse_jp2(&bytes).is_err());
}

#[test]
fn rejects_missing_ftyp() {
    let mut v = Vec::new();
    emit_box(&mut v, BOX_TYPE_JP2_SIGNATURE, &JP2_SIGNATURE_MAGIC);
    let mut jp2h_body = Vec::new();
    let mut ihdr_body = Vec::new();
    ihdr_body.extend_from_slice(&1u32.to_be_bytes());
    ihdr_body.extend_from_slice(&1u32.to_be_bytes());
    ihdr_body.extend_from_slice(&1u16.to_be_bytes());
    ihdr_body.push(7);
    ihdr_body.push(7);
    ihdr_body.push(0);
    ihdr_body.push(0);
    emit_box(&mut jp2h_body, BOX_TYPE_IHDR, &ihdr_body);
    let mut colr_body = Vec::new();
    colr_body.push(1);
    colr_body.push(0);
    colr_body.push(0);
    colr_body.extend_from_slice(&16u32.to_be_bytes());
    emit_box(&mut jp2h_body, BOX_TYPE_COLR, &colr_body);
    emit_box(&mut v, BOX_TYPE_JP2H, &jp2h_body);
    emit_box(&mut v, BOX_TYPE_JP2C, b"\xFF\x4F\xFF\xD9");
    assert!(parse_jp2(&v).is_err());
}

#[test]
fn parses_3_component_with_bpcc() {
    let mut v = Vec::new();
    emit_box(&mut v, BOX_TYPE_JP2_SIGNATURE, &JP2_SIGNATURE_MAGIC);
    let mut ftyp_body = Vec::new();
    ftyp_body.extend_from_slice(&BRAND_JP2.to_be_bytes());
    ftyp_body.extend_from_slice(&0u32.to_be_bytes());
    ftyp_body.extend_from_slice(&BRAND_JP2.to_be_bytes());
    emit_box(&mut v, BOX_TYPE_FTYP, &ftyp_body);
    let mut jp2h_body = Vec::new();
    let mut ihdr_body = Vec::new();
    ihdr_body.extend_from_slice(&16u32.to_be_bytes());
    ihdr_body.extend_from_slice(&16u32.to_be_bytes());
    ihdr_body.extend_from_slice(&3u16.to_be_bytes());
    ihdr_body.push(0xFF);
    ihdr_body.push(7);
    ihdr_body.push(0);
    ihdr_body.push(0);
    emit_box(&mut jp2h_body, BOX_TYPE_IHDR, &ihdr_body);
    emit_box(&mut jp2h_body, BOX_TYPE_BPCC, &[7, 7, 15]);
    let mut colr_body = Vec::new();
    colr_body.push(1);
    colr_body.push(0);
    colr_body.push(0);
    colr_body.extend_from_slice(&16u32.to_be_bytes());
    emit_box(&mut jp2h_body, BOX_TYPE_COLR, &colr_body);
    emit_box(&mut v, BOX_TYPE_JP2H, &jp2h_body);
    emit_box(&mut v, BOX_TYPE_JP2C, b"\xFF\x4F\xFF\xD9");
    let c = parse_jp2(&v).expect("parse 3-component");
    assert_eq!(c.header.ihdr.component_count, 3);
    assert!(c.header.ihdr.varies_in_bit_depth());
    assert_eq!(c.header.bpcc.as_ref().unwrap().bpci, vec![7, 7, 15]);
}

#[test]
fn rejects_vary_bpc_without_bpcc() {
    let mut v = Vec::new();
    emit_box(&mut v, BOX_TYPE_JP2_SIGNATURE, &JP2_SIGNATURE_MAGIC);
    let mut ftyp_body = Vec::new();
    ftyp_body.extend_from_slice(&BRAND_JP2.to_be_bytes());
    ftyp_body.extend_from_slice(&0u32.to_be_bytes());
    ftyp_body.extend_from_slice(&BRAND_JP2.to_be_bytes());
    emit_box(&mut v, BOX_TYPE_FTYP, &ftyp_body);
    let mut jp2h_body = Vec::new();
    let mut ihdr_body = Vec::new();
    ihdr_body.extend_from_slice(&1u32.to_be_bytes());
    ihdr_body.extend_from_slice(&1u32.to_be_bytes());
    ihdr_body.extend_from_slice(&3u16.to_be_bytes());
    ihdr_body.push(0xFF);
    ihdr_body.push(7);
    ihdr_body.push(0);
    ihdr_body.push(0);
    emit_box(&mut jp2h_body, BOX_TYPE_IHDR, &ihdr_body);
    let mut colr_body = Vec::new();
    colr_body.push(1);
    colr_body.push(0);
    colr_body.push(0);
    colr_body.extend_from_slice(&16u32.to_be_bytes());
    emit_box(&mut jp2h_body, BOX_TYPE_COLR, &colr_body);
    emit_box(&mut v, BOX_TYPE_JP2H, &jp2h_body);
    emit_box(&mut v, BOX_TYPE_JP2C, b"\xFF\x4F\xFF\xD9");
    assert!(parse_jp2(&v).is_err());
}

#[test]
fn rejects_jp2h_with_no_colr() {
    let mut v = Vec::new();
    emit_box(&mut v, BOX_TYPE_JP2_SIGNATURE, &JP2_SIGNATURE_MAGIC);
    let mut ftyp_body = Vec::new();
    ftyp_body.extend_from_slice(&BRAND_JP2.to_be_bytes());
    ftyp_body.extend_from_slice(&0u32.to_be_bytes());
    ftyp_body.extend_from_slice(&BRAND_JP2.to_be_bytes());
    emit_box(&mut v, BOX_TYPE_FTYP, &ftyp_body);
    let mut jp2h_body = Vec::new();
    let mut ihdr_body = Vec::new();
    ihdr_body.extend_from_slice(&1u32.to_be_bytes());
    ihdr_body.extend_from_slice(&1u32.to_be_bytes());
    ihdr_body.extend_from_slice(&1u16.to_be_bytes());
    ihdr_body.push(7);
    ihdr_body.push(7);
    ihdr_body.push(0);
    ihdr_body.push(0);
    emit_box(&mut jp2h_body, BOX_TYPE_IHDR, &ihdr_body);
    emit_box(&mut v, BOX_TYPE_JP2H, &jp2h_body);
    emit_box(&mut v, BOX_TYPE_JP2C, b"\xFF\x4F\xFF\xD9");
    assert!(parse_jp2(&v).is_err());
}

#[test]
fn parses_with_intermediate_unknown_box() {
    let mut v = Vec::new();
    emit_box(&mut v, BOX_TYPE_JP2_SIGNATURE, &JP2_SIGNATURE_MAGIC);
    let mut ftyp_body = Vec::new();
    ftyp_body.extend_from_slice(&BRAND_JP2.to_be_bytes());
    ftyp_body.extend_from_slice(&0u32.to_be_bytes());
    ftyp_body.extend_from_slice(&BRAND_JP2.to_be_bytes());
    emit_box(&mut v, BOX_TYPE_FTYP, &ftyp_body);
    emit_box(&mut v, 0x786D_6C20, b"<xml/>");
    let mut jp2h_body = Vec::new();
    let mut ihdr_body = Vec::new();
    ihdr_body.extend_from_slice(&1u32.to_be_bytes());
    ihdr_body.extend_from_slice(&1u32.to_be_bytes());
    ihdr_body.extend_from_slice(&1u16.to_be_bytes());
    ihdr_body.push(7);
    ihdr_body.push(7);
    ihdr_body.push(0);
    ihdr_body.push(0);
    emit_box(&mut jp2h_body, BOX_TYPE_IHDR, &ihdr_body);
    let mut colr_body = Vec::new();
    colr_body.push(1);
    colr_body.push(0);
    colr_body.push(0);
    colr_body.extend_from_slice(&16u32.to_be_bytes());
    emit_box(&mut jp2h_body, BOX_TYPE_COLR, &colr_body);
    emit_box(&mut v, BOX_TYPE_JP2H, &jp2h_body);
    emit_box(&mut v, BOX_TYPE_JP2C, b"\xFF\x4F\xFF\xD9");
    let c = parse_jp2(&v).expect("parse with xml");
    assert_eq!(c.header.ihdr.width, 1);
    assert_eq!(c.codestream_len, 4);
}

#[test]
fn parses_extended_length_jp2c() {
    let mut v = Vec::new();
    emit_box(&mut v, BOX_TYPE_JP2_SIGNATURE, &JP2_SIGNATURE_MAGIC);
    let mut ftyp_body = Vec::new();
    ftyp_body.extend_from_slice(&BRAND_JP2.to_be_bytes());
    ftyp_body.extend_from_slice(&0u32.to_be_bytes());
    ftyp_body.extend_from_slice(&BRAND_JP2.to_be_bytes());
    emit_box(&mut v, BOX_TYPE_FTYP, &ftyp_body);
    let mut jp2h_body = Vec::new();
    let mut ihdr_body = Vec::new();
    ihdr_body.extend_from_slice(&1u32.to_be_bytes());
    ihdr_body.extend_from_slice(&1u32.to_be_bytes());
    ihdr_body.extend_from_slice(&1u16.to_be_bytes());
    ihdr_body.push(7);
    ihdr_body.push(7);
    ihdr_body.push(0);
    ihdr_body.push(0);
    emit_box(&mut jp2h_body, BOX_TYPE_IHDR, &ihdr_body);
    let mut colr_body = Vec::new();
    colr_body.push(1);
    colr_body.push(0);
    colr_body.push(0);
    colr_body.extend_from_slice(&16u32.to_be_bytes());
    emit_box(&mut jp2h_body, BOX_TYPE_COLR, &colr_body);
    emit_box(&mut v, BOX_TYPE_JP2H, &jp2h_body);
    let payload: &[u8] = b"\xFF\x4F\xFF\xD9\x00\x00";
    let total: u64 = 16 + payload.len() as u64;
    v.extend_from_slice(&1u32.to_be_bytes());
    v.extend_from_slice(&BOX_TYPE_JP2C.to_be_bytes());
    v.extend_from_slice(&total.to_be_bytes());
    v.extend_from_slice(payload);
    let c = parse_jp2(&v).expect("parse extended");
    assert_eq!(c.codestream_len, payload.len());
    assert_eq!(
        &v[c.codestream_offset..c.codestream_offset + c.codestream_len],
        payload
    );
}

#[test]
fn parses_lbox_zero_jp2c() {
    let mut v = Vec::new();
    emit_box(&mut v, BOX_TYPE_JP2_SIGNATURE, &JP2_SIGNATURE_MAGIC);
    let mut ftyp_body = Vec::new();
    ftyp_body.extend_from_slice(&BRAND_JP2.to_be_bytes());
    ftyp_body.extend_from_slice(&0u32.to_be_bytes());
    ftyp_body.extend_from_slice(&BRAND_JP2.to_be_bytes());
    emit_box(&mut v, BOX_TYPE_FTYP, &ftyp_body);
    let mut jp2h_body = Vec::new();
    let mut ihdr_body = Vec::new();
    ihdr_body.extend_from_slice(&1u32.to_be_bytes());
    ihdr_body.extend_from_slice(&1u32.to_be_bytes());
    ihdr_body.extend_from_slice(&1u16.to_be_bytes());
    ihdr_body.push(7);
    ihdr_body.push(7);
    ihdr_body.push(0);
    ihdr_body.push(0);
    emit_box(&mut jp2h_body, BOX_TYPE_IHDR, &ihdr_body);
    let mut colr_body = Vec::new();
    colr_body.push(1);
    colr_body.push(0);
    colr_body.push(0);
    colr_body.extend_from_slice(&16u32.to_be_bytes());
    emit_box(&mut jp2h_body, BOX_TYPE_COLR, &colr_body);
    emit_box(&mut v, BOX_TYPE_JP2H, &jp2h_body);
    v.extend_from_slice(&0u32.to_be_bytes());
    v.extend_from_slice(&BOX_TYPE_JP2C.to_be_bytes());
    let payload: &[u8] = b"\xFF\x4F\xFF\xD9\x00";
    v.extend_from_slice(payload);
    let c = parse_jp2(&v).expect("parse lbox=0");
    assert_eq!(c.codestream_len, payload.len());
}

#[test]
fn parses_icc_profile_colr() {
    let mut v = Vec::new();
    emit_box(&mut v, BOX_TYPE_JP2_SIGNATURE, &JP2_SIGNATURE_MAGIC);
    let mut ftyp_body = Vec::new();
    ftyp_body.extend_from_slice(&BRAND_JP2.to_be_bytes());
    ftyp_body.extend_from_slice(&0u32.to_be_bytes());
    ftyp_body.extend_from_slice(&BRAND_JP2.to_be_bytes());
    emit_box(&mut v, BOX_TYPE_FTYP, &ftyp_body);
    let mut jp2h_body = Vec::new();
    let mut ihdr_body = Vec::new();
    ihdr_body.extend_from_slice(&1u32.to_be_bytes());
    ihdr_body.extend_from_slice(&1u32.to_be_bytes());
    ihdr_body.extend_from_slice(&3u16.to_be_bytes());
    ihdr_body.push(7);
    ihdr_body.push(7);
    ihdr_body.push(0);
    ihdr_body.push(0);
    emit_box(&mut jp2h_body, BOX_TYPE_IHDR, &ihdr_body);
    let mut colr_body = Vec::new();
    colr_body.push(2);
    colr_body.push(0);
    colr_body.push(0);
    colr_body.extend_from_slice(&[0xABu8; 16]);
    emit_box(&mut jp2h_body, BOX_TYPE_COLR, &colr_body);
    emit_box(&mut v, BOX_TYPE_JP2H, &jp2h_body);
    emit_box(&mut v, BOX_TYPE_JP2C, b"\xFF\x4F\xFF\xD9");
    let c = parse_jp2(&v).expect("icc colr");
    assert_eq!(c.header.colr[0].method, ColrMethod::RestrictedIccProfile);
    assert_eq!(c.header.colr[0].icc_profile.as_ref().unwrap().len(), 16);
    assert!(c.header.colr[0].enumerated.is_none());
}

#[test]
fn rejects_truncated_box() {
    let mut v = Vec::new();
    v.extend_from_slice(&1000u32.to_be_bytes());
    v.extend_from_slice(&BOX_TYPE_JP2_SIGNATURE.to_be_bytes());
    assert!(parse_jp2(&v).is_err());
}

#[test]
fn rejects_reserved_lbox_value() {
    let mut v = Vec::new();
    v.extend_from_slice(&4u32.to_be_bytes());
    v.extend_from_slice(&BOX_TYPE_JP2_SIGNATURE.to_be_bytes());
    assert!(parse_jp2(&v).is_err());
}

#[test]
fn ftyp_is_jp2_compatible_recognises_brand() {
    let ftyp = Ftyp {
        brand: 0xDEAD_BEEF,
        minor_version: 0,
        compatibility: vec![0x1234_5678, BRAND_JP2],
    };
    assert!(ftyp.is_jp2_compatible());
    let ftyp2 = Ftyp {
        brand: BRAND_JP2,
        minor_version: 0,
        compatibility: vec![0xDEAD_BEEF],
    };
    assert!(!ftyp2.is_jp2_compatible());
}

fn synth_minimal_jph(codestream: &[u8], w: u32, h: u32, colr: Option<&[u8]>) -> Vec<u8> {
    let mut v = Vec::new();
    emit_box(&mut v, BOX_TYPE_JP2_SIGNATURE, &JP2_SIGNATURE_MAGIC);
    let mut ftyp_body = Vec::new();
    ftyp_body.extend_from_slice(&BRAND_JPH.to_be_bytes());
    ftyp_body.extend_from_slice(&0u32.to_be_bytes());
    ftyp_body.extend_from_slice(&BRAND_JPH.to_be_bytes());
    emit_box(&mut v, BOX_TYPE_FTYP, &ftyp_body);
    let mut jp2h_body = Vec::new();
    let mut ihdr_body = Vec::new();
    ihdr_body.extend_from_slice(&h.to_be_bytes());
    ihdr_body.extend_from_slice(&w.to_be_bytes());
    ihdr_body.extend_from_slice(&1u16.to_be_bytes());
    ihdr_body.push(7);
    ihdr_body.push(7);
    ihdr_body.push(u8::from(colr.is_none()));
    ihdr_body.push(0);
    emit_box(&mut jp2h_body, BOX_TYPE_IHDR, &ihdr_body);
    if let Some(c) = colr {
        emit_box(&mut jp2h_body, BOX_TYPE_COLR, c);
    }
    emit_box(&mut v, BOX_TYPE_JP2H, &jp2h_body);
    emit_box(&mut v, BOX_TYPE_JP2C, codestream);
    v
}

#[test]
fn jph_file_with_ht_codestream_round_trips() {
    let (w, h) = (32u32, 24u32);
    let mut seed = 0x4A50_4801u32;
    let plane: Vec<u8> = (0..w * h)
        .map(|_| {
            seed = seed.wrapping_mul(1_664_525).wrapping_add(1_013_904_223);
            (seed >> 24) as u8
        })
        .collect();
    let codestream = raw_codestream(&[&plane]);
    let jph = synth_minimal_jph(&codestream, w, h, None);
    let c = parse_jp2(&jph).expect("parse JPH");
    assert_eq!(c.ftyp.brand, BRAND_JPH);
    assert!(c.ftyp.is_jph_compatible());
    assert!(!c.ftyp.is_jp2_compatible());
    assert!(c.header.colr.is_empty());
    assert_eq!(c.header.ihdr.colourspace_unknown, 1);
    let embedded = &jph[c.codestream_offset..c.codestream_offset + c.codestream_len];
    let img = decode_raw(embedded, 1, w, h).expect("decode embedded codestream");
    let got: Vec<u8> = img.components[0].samples.iter().map(|&s| s as u8).collect();
    assert_eq!(got, plane);
}

#[test]
fn jph_colr_exemption_requires_unkc() {
    let cs = b"\xFF\x4F\xFF\xD9";
    let mut v = Vec::new();
    emit_box(&mut v, BOX_TYPE_JP2_SIGNATURE, &JP2_SIGNATURE_MAGIC);
    let mut ftyp_body = Vec::new();
    ftyp_body.extend_from_slice(&BRAND_JPH.to_be_bytes());
    ftyp_body.extend_from_slice(&0u32.to_be_bytes());
    ftyp_body.extend_from_slice(&BRAND_JPH.to_be_bytes());
    emit_box(&mut v, BOX_TYPE_FTYP, &ftyp_body);
    let mut jp2h_body = Vec::new();
    let mut ihdr_body = Vec::new();
    ihdr_body.extend_from_slice(&8u32.to_be_bytes());
    ihdr_body.extend_from_slice(&8u32.to_be_bytes());
    ihdr_body.extend_from_slice(&1u16.to_be_bytes());
    ihdr_body.push(7);
    ihdr_body.push(7);
    ihdr_body.push(0);
    ihdr_body.push(0);
    emit_box(&mut jp2h_body, BOX_TYPE_IHDR, &ihdr_body);
    emit_box(&mut v, BOX_TYPE_JP2H, &jp2h_body);
    emit_box(&mut v, BOX_TYPE_JP2C, cs);
    assert!(parse_jp2(&v).is_err());
}

#[test]
fn jph_meth_3_and_5_parse() {
    let cs = b"\xFF\x4F\xFF\xD9";
    let mut colr3 = vec![3u8, 0, 0];
    colr3.extend_from_slice(&[0xAA; 16]);
    let jph = synth_minimal_jph(cs, 8, 8, Some(&colr3));
    let c = parse_jp2(&jph).expect("parse METH 3");
    assert_eq!(c.header.colr[0].method, ColrMethod::AnyIcc);
    assert_eq!(
        c.header.colr[0].icc_profile.as_deref(),
        Some(&[0xAA; 16][..])
    );
    let colr5 = [5u8, 0, 0, 0, 9, 0, 16, 0, 9, 0x80];
    let jph = synth_minimal_jph(cs, 8, 8, Some(&colr5));
    let c = parse_jp2(&jph).expect("parse METH 5");
    assert_eq!(c.header.colr[0].method, ColrMethod::Parameterized);
    assert_eq!(
        c.header.colr[0].parameterized,
        Some(ParameterizedColour {
            colour_primaries: 9,
            transfer_characteristics: 16,
            matrix_coefficients: 9,
            video_full_range: true,
        })
    );
    let bad = [5u8, 0, 0, 0, 9, 0, 16];
    assert!(parse_jp2(&synth_minimal_jph(cs, 8, 8, Some(&bad))).is_err());
}

fn synth_jp2_with(nc: u16, extra_jp2h: &[(u32, Vec<u8>)], codestream: &[u8]) -> Vec<u8> {
    let mut v = Vec::new();
    emit_box(&mut v, BOX_TYPE_JP2_SIGNATURE, &JP2_SIGNATURE_MAGIC);
    let mut ftyp_body = Vec::new();
    ftyp_body.extend_from_slice(&BRAND_JP2.to_be_bytes());
    ftyp_body.extend_from_slice(&0u32.to_be_bytes());
    ftyp_body.extend_from_slice(&BRAND_JP2.to_be_bytes());
    emit_box(&mut v, BOX_TYPE_FTYP, &ftyp_body);
    let mut jp2h_body = Vec::new();
    let mut ihdr_body = Vec::new();
    ihdr_body.extend_from_slice(&8u32.to_be_bytes());
    ihdr_body.extend_from_slice(&8u32.to_be_bytes());
    ihdr_body.extend_from_slice(&nc.to_be_bytes());
    ihdr_body.push(7);
    ihdr_body.push(7);
    ihdr_body.push(0);
    ihdr_body.push(0);
    emit_box(&mut jp2h_body, BOX_TYPE_IHDR, &ihdr_body);
    let mut colr_body = vec![1u8, 0, 0];
    colr_body.extend_from_slice(&16u32.to_be_bytes());
    emit_box(&mut jp2h_body, BOX_TYPE_COLR, &colr_body);
    for (ty, body) in extra_jp2h {
        emit_box(&mut jp2h_body, *ty, body);
    }
    emit_box(&mut v, BOX_TYPE_JP2H, &jp2h_body);
    emit_box(&mut v, BOX_TYPE_JP2C, codestream);
    v
}

fn pclr_body(columns: &[(u8, &[i64])]) -> Vec<u8> {
    let ne = columns[0].1.len() as u16;
    let mut body = Vec::new();
    body.extend_from_slice(&ne.to_be_bytes());
    body.push(columns.len() as u8);
    for (bi, _) in columns {
        body.push(*bi);
    }
    for j in 0..ne as usize {
        for (bi, vals) in columns {
            let depth = (bi & 0x7F) + 1;
            let nbytes = usize::from(depth).div_ceil(8);
            let masked = (vals[j] as u64) & ((1u64 << depth) - 1);
            let be = masked.to_be_bytes();
            body.extend_from_slice(&be[8 - nbytes..]);
        }
    }
    body
}

fn cmap_body(entries: &[(u16, u8, u8)]) -> Vec<u8> {
    let mut body = Vec::new();
    for (cmp, mtyp, pcol) in entries {
        body.extend_from_slice(&cmp.to_be_bytes());
        body.push(*mtyp);
        body.push(*pcol);
    }
    body
}

fn cdef_body(defs: &[(u16, u16, u16)]) -> Vec<u8> {
    let mut body = Vec::new();
    body.extend_from_slice(&(defs.len() as u16).to_be_bytes());
    for (cn, typ, asoc) in defs {
        body.extend_from_slice(&cn.to_be_bytes());
        body.extend_from_slice(&typ.to_be_bytes());
        body.extend_from_slice(&asoc.to_be_bytes());
    }
    body
}

#[test]
fn parses_pclr_cmap_pair() {
    let cs = b"\xFF\x4F\xFF\xD9";
    let pclr = pclr_body(&[
        (7, &[10, 20, 30, 40]),
        (7, &[11, 21, 31, 41]),
        (7, &[12, 22, 32, 42]),
    ]);
    let cmap = cmap_body(&[(0, 1, 0), (0, 1, 1), (0, 1, 2)]);
    let bytes = synth_jp2_with(1, &[(BOX_TYPE_PCLR, pclr), (BOX_TYPE_CMAP, cmap)], cs);
    let c = parse_jp2(&bytes).expect("parse pclr/cmap");
    let p = c.header.pclr.expect("pclr");
    assert_eq!(p.columns.len(), 3);
    assert_eq!(p.entries(), 4);
    assert_eq!(p.columns[0].bit_depth, 8);
    assert!(!p.columns[0].signed);
    assert_eq!(p.columns[0].values, vec![10, 20, 30, 40]);
    assert_eq!(p.columns[2].values, vec![12, 22, 32, 42]);
    let m = c.header.cmap.expect("cmap");
    assert_eq!(m.len(), 3);
    assert_eq!(m[0].component, 0);
    assert_eq!(m[1].mapping, CmapMapping::Palette { column: 1 });
}

#[test]
fn pclr_non_byte_multiple_and_signed_columns() {
    let cs = b"\xFF\x4F\xFF\xD9";
    let pclr = pclr_body(&[(9, &[0x3FF, 0x200, 5]), (0x87, &[-1, -128, 127])]);
    let cmap = cmap_body(&[(0, 1, 0), (0, 1, 1)]);
    let bytes = synth_jp2_with(1, &[(BOX_TYPE_PCLR, pclr), (BOX_TYPE_CMAP, cmap)], cs);
    let c = parse_jp2(&bytes).expect("parse deep/signed pclr");
    let p = c.header.pclr.expect("pclr");
    assert_eq!(p.columns[0].bit_depth, 10);
    assert_eq!(p.columns[0].values, vec![0x3FF, 0x200, 5]);
    assert_eq!(p.columns[1].bit_depth, 8);
    assert!(p.columns[1].signed);
    assert_eq!(p.columns[1].values, vec![-1, -128, 127]);
}

#[test]
fn pclr_requires_cmap_and_vice_versa() {
    let cs = b"\xFF\x4F\xFF\xD9";
    let pclr = pclr_body(&[(7, &[1, 2])]);
    let bytes = synth_jp2_with(1, &[(BOX_TYPE_PCLR, pclr)], cs);
    assert!(parse_jp2(&bytes).is_err());
    let cmap = cmap_body(&[(0, 0, 0)]);
    let bytes = synth_jp2_with(1, &[(BOX_TYPE_CMAP, cmap)], cs);
    assert!(parse_jp2(&bytes).is_err());
}

#[test]
fn cmap_faults_are_rejected() {
    let cs = b"\xFF\x4F\xFF\xD9";
    let pclr = pclr_body(&[(7, &[1, 2])]);
    let bad = cmap_body(&[(0, 0, 1)]);
    let bytes = synth_jp2_with(
        1,
        &[(BOX_TYPE_PCLR, pclr.clone()), (BOX_TYPE_CMAP, bad)],
        cs,
    );
    assert!(parse_jp2(&bytes).is_err());
    let bad = cmap_body(&[(0, 1, 3)]);
    let bytes = synth_jp2_with(
        1,
        &[(BOX_TYPE_PCLR, pclr.clone()), (BOX_TYPE_CMAP, bad)],
        cs,
    );
    assert!(parse_jp2(&bytes).is_err());
    let bad = cmap_body(&[(2, 1, 0)]);
    let bytes = synth_jp2_with(1, &[(BOX_TYPE_PCLR, pclr), (BOX_TYPE_CMAP, bad)], cs);
    assert!(parse_jp2(&bytes).is_err());
    let pclr = pclr_body(&[(7, &[1, 2])]);
    let bad = cmap_body(&[(0, 2, 0)]);
    let bytes = synth_jp2_with(1, &[(BOX_TYPE_PCLR, pclr), (BOX_TYPE_CMAP, bad)], cs);
    assert!(parse_jp2(&bytes).is_err());
}

#[test]
fn parses_cdef_and_rejects_duplicates() {
    let cs = b"\xFF\x4F\xFF\xD9";
    let cdef = cdef_body(&[(0, 0, 3), (1, 0, 2), (2, 0, 1), (3, 1, 0)]);
    let bytes = synth_jp2_with(4, &[(BOX_TYPE_CDEF, cdef)], cs);
    let c = parse_jp2(&bytes).expect("parse cdef");
    let defs = c.header.cdef.expect("cdef");
    assert_eq!(defs.len(), 4);
    assert_eq!(defs[0].channel, 0);
    assert_eq!(defs[0].channel_type, ChannelDef::TYPE_COLOUR);
    assert_eq!(defs[0].association, 3);
    assert_eq!(defs[3].channel_type, ChannelDef::TYPE_OPACITY);
    let bad = cdef_body(&[(0, 0, 2), (1, 0, 2)]);
    let bytes = synth_jp2_with(2, &[(BOX_TYPE_CDEF, bad)], cs);
    assert!(parse_jp2(&bytes).is_err());
    let ok = cdef_body(&[(0, 0xFFFF, 0xFFFF), (1, 0xFFFF, 0xFFFF)]);
    let bytes = synth_jp2_with(2, &[(BOX_TYPE_CDEF, ok)], cs);
    assert!(parse_jp2(&bytes).is_ok());
    let bad = cdef_body(&[(5, 0, 1)]);
    let bytes = synth_jp2_with(2, &[(BOX_TYPE_CDEF, bad)], cs);
    assert!(parse_jp2(&bytes).is_err());
}

#[test]
fn parses_resolution_superbox() {
    let cs = b"\xFF\x4F\xFF\xD9";
    let mut res_body = Vec::new();
    let mut resc = Vec::new();
    resc.extend_from_slice(&11811u16.to_be_bytes());
    resc.extend_from_slice(&1u16.to_be_bytes());
    resc.extend_from_slice(&11811u16.to_be_bytes());
    resc.extend_from_slice(&1u16.to_be_bytes());
    resc.push(0);
    resc.push(0);
    emit_box(&mut res_body, BOX_TYPE_RESC, &resc);
    let mut resd = Vec::new();
    resd.extend_from_slice(&72u16.to_be_bytes());
    resd.extend_from_slice(&1u16.to_be_bytes());
    resd.extend_from_slice(&96u16.to_be_bytes());
    resd.extend_from_slice(&2u16.to_be_bytes());
    resd.push(2);
    resd.push((-1i8) as u8);
    emit_box(&mut res_body, BOX_TYPE_RESD, &resd);
    let bytes = synth_jp2_with(1, &[(BOX_TYPE_RES, res_body)], cs);
    let c = parse_jp2(&bytes).expect("parse res");
    let r = c.header.resolution.expect("res");
    let capture = r.capture.expect("resc");
    assert_eq!(vertical_points_per_metre(&capture), 11811.0);
    assert_eq!(horizontal_points_per_metre(&capture), 11811.0);
    let display = r.display.expect("resd");
    assert_eq!(vertical_points_per_metre(&display), 7200.0);
    assert!((horizontal_points_per_metre(&display) - 4.8).abs() < 1e-12);
    let bytes = synth_jp2_with(1, &[(BOX_TYPE_RES, Vec::new())], cs);
    assert!(parse_jp2(&bytes).is_err());
}

#[test]
fn decode_jp2_expands_palette() {
    let w = 8u32;
    let h = 8u32;
    let idx: Vec<u8> = (0..w * h).map(|i| (i as u8) % 4).collect();
    let cs = raw_codestream(&[&idx]);
    let pal: [(i64, i64, i64); 4] = [(255, 0, 10), (0, 255, 20), (0, 0, 255), (7, 8, 9)];
    let r: Vec<i64> = pal.iter().map(|p| p.0).collect();
    let g: Vec<i64> = pal.iter().map(|p| p.1).collect();
    let b: Vec<i64> = pal.iter().map(|p| p.2).collect();
    let pclr = pclr_body(&[(7, &r), (7, &g), (7, &b)]);
    let cmap = cmap_body(&[(0, 1, 0), (0, 1, 1), (0, 1, 2)]);
    let bytes = synth_jp2_with(1, &[(BOX_TYPE_PCLR, pclr), (BOX_TYPE_CMAP, cmap)], &cs);
    let image = decode_jp2(&bytes, |cs| decode_raw(cs, 1, w, h)).expect("decode palettized jp2");
    assert_eq!(image.components.len(), 3);
    for (ci, comp) in image.components.iter().enumerate() {
        assert_eq!(comp.width, w);
        assert_eq!(comp.height, h);
        assert_eq!(comp.precision_bits, 8);
        assert!(!comp.is_signed);
        for (i, &s) in comp.samples.iter().enumerate() {
            let entry = pal[idx[i] as usize];
            let expect = [entry.0, entry.1, entry.2][ci] as i32;
            assert_eq!(s, expect, "channel {ci} pixel {i}");
        }
    }
    let interleaved = decode_packet(&bytes, |cs| decode_raw(cs, 1, w, h))
        .expect("interleaved")
        .data;
    assert_eq!(interleaved.len(), (w * h * 3) as usize);
    assert_eq!(interleaved[0], 255);
    assert_eq!(interleaved[1], 0);
    assert_eq!(interleaved[2], 10);
    assert_eq!(interleaved[3], 0);
    assert_eq!(interleaved[4], 255);
    assert_eq!(interleaved[5], 20);
}

#[test]
fn decode_jp2_orders_channels_per_cdef() {
    let w = 8u32;
    let h = 8u32;
    let bp: Vec<u8> = (0..w * h).map(|i| (i % 251) as u8).collect();
    let gp: Vec<u8> = (0..w * h).map(|i| ((i * 3) % 249) as u8).collect();
    let rp: Vec<u8> = (0..w * h).map(|i| ((i * 7) % 247) as u8).collect();
    let cs = raw_codestream(&[&bp, &gp, &rp]);
    let cdef = cdef_body(&[(0, 0, 3), (1, 0, 2), (2, 0, 1)]);
    let bytes = synth_jp2_with(3, &[(BOX_TYPE_CDEF, cdef)], &cs);
    let as_i32 = |v: &[u8]| v.iter().map(|&s| i32::from(s)).collect::<Vec<i32>>();
    let image = decode_jp2(&bytes, |cs| decode_raw(cs, 3, w, h)).expect("decode cdef jp2");
    assert_eq!(image.components.len(), 3);
    assert_eq!(image.components[0].samples, as_i32(&rp));
    assert_eq!(image.components[1].samples, as_i32(&gp));
    assert_eq!(image.components[2].samples, as_i32(&bp));
    let bytes = synth_jp2_with(3, &[], &cs);
    let image = decode_jp2(&bytes, |cs| decode_raw(cs, 3, w, h)).expect("decode plain jp2");
    assert_eq!(image.components[0].samples, as_i32(&bp));
    assert_eq!(image.components[2].samples, as_i32(&rp));
}
