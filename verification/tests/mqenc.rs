use oxideav_jpeg2000::mq::{MqContext, MqDecoder};
use oxideav_jpeg2000::mqenc::MqEncoder;

fn roundtrip_default(decisions: &[u8]) {
    let mut enc = MqEncoder::new();
    let mut ecx = MqContext::default();
    for &d in decisions {
        enc.encode(&mut ecx, d);
    }
    let bytes = enc.flush();

    let mut dec = MqDecoder::new(&bytes);
    let mut dcx = MqContext::default();
    for (i, &d) in decisions.iter().enumerate() {
        let got = dec.decode(&mut dcx);
        assert_eq!(got, d, "decision {i} mismatch (len {})", decisions.len());
    }
}

#[test]
fn roundtrip_all_zeros() {
    roundtrip_default(&[0u8; 500]);
}

#[test]
fn roundtrip_all_ones() {
    roundtrip_default(&[1u8; 500]);
}

#[test]
fn roundtrip_alternating() {
    let d: Vec<u8> = (0..1000).map(|i| (i % 2) as u8).collect();
    roundtrip_default(&d);
}

#[test]
fn roundtrip_pseudo_random() {
    let mut state: u32 = 0x1234_5678;
    let mut d = Vec::with_capacity(5000);
    for _ in 0..5000 {
        state = state.wrapping_mul(1_664_525).wrapping_add(1_013_904_223);
        d.push(((state >> 16) & 1) as u8);
    }
    roundtrip_default(&d);
}

#[test]
fn roundtrip_mostly_ones_carry_heavy() {
    let mut state: u32 = 0xDEAD_BEEF;
    let mut d = Vec::with_capacity(8000);
    for _ in 0..8000 {
        state = state.wrapping_mul(1_103_515_245).wrapping_add(12_345);
        d.push(if (state >> 13) & 7 == 0 { 0 } else { 1 });
    }
    roundtrip_default(&d);
}

#[test]
fn roundtrip_multi_context() {
    let mut enc = MqEncoder::new();
    let mut ecx = [
        MqContext::default(),
        MqContext::uniform(),
        MqContext::run_length(),
        MqContext::zero_neighbours(),
    ];
    let mut state: u32 = 0x0BAD_F00D;
    let mut plan = Vec::with_capacity(4000);
    for _ in 0..4000 {
        state = state.wrapping_mul(22_695_477).wrapping_add(1);
        let ctx = ((state >> 28) & 3) as usize;
        let bit = ((state >> 15) & 1) as u8;
        plan.push((ctx, bit));
        enc.encode(&mut ecx[ctx], bit);
    }
    let bytes = enc.flush();

    let mut dec = MqDecoder::new(&bytes);
    let mut dcx = [
        MqContext::default(),
        MqContext::uniform(),
        MqContext::run_length(),
        MqContext::zero_neighbours(),
    ];
    for (i, &(ctx, bit)) in plan.iter().enumerate() {
        assert_eq!(dec.decode(&mut dcx[ctx]), bit, "step {i}");
    }
}

#[test]
fn empty_flush_is_decodable() {
    let enc = MqEncoder::new();
    let bytes = enc.flush();
    let mut dec = MqDecoder::new(&bytes);
    let mut cx = MqContext::default();
    for _ in 0..16 {
        let _ = dec.decode(&mut cx);
    }
}

#[test]
fn flush_never_ends_on_0xff() {
    let mut state: u32 = 0x5555_AAAA;
    for _ in 0..200 {
        let mut enc = MqEncoder::new();
        let mut cx = MqContext::default();
        let mut d = Vec::new();
        for _ in 0..300 {
            state = state.wrapping_mul(1_664_525).wrapping_add(1_013_904_223);
            d.push(((state >> 17) & 1) as u8);
        }
        for &b in &d {
            enc.encode(&mut cx, b);
        }
        let bytes = enc.flush();
        assert_ne!(bytes.last(), Some(&0xFF));
    }
}
