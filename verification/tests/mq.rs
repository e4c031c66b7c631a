use oxideav_jpeg2000::mq::{qe_table, MqContext, MqDecoder, QeEntry};

#[test]
fn table_c2_has_47_entries() {
    assert_eq!(qe_table().len(), 47);
}

#[test]
fn table_c2_indices_in_range() {
    for (i, e) in qe_table().iter().enumerate() {
        assert!(
            (e.nmps as usize) < qe_table().len(),
            "NMPS out of range at index {i}"
        );
        assert!(
            (e.nlps as usize) < qe_table().len(),
            "NLPS out of range at index {i}"
        );
    }
}

#[test]
fn table_c2_spot_values() {
    assert_eq!(
        qe_table()[0],
        QeEntry {
            qe: 0x5601,
            nmps: 1,
            nlps: 1,
            switch: true
        }
    );
    assert_eq!(
        qe_table()[1],
        QeEntry {
            qe: 0x3401,
            nmps: 2,
            nlps: 6,
            switch: false
        }
    );
    assert_eq!(qe_table()[35].qe, 0x02A1);
    assert_eq!(
        qe_table()[45],
        QeEntry {
            qe: 0x0001,
            nmps: 45,
            nlps: 43,
            switch: false
        }
    );
    assert_eq!(
        qe_table()[46],
        QeEntry {
            qe: 0x5601,
            nmps: 46,
            nlps: 46,
            switch: false
        }
    );
}

#[test]
fn switch_flags_only_set_at_0_6_14() {
    for (i, e) in qe_table().iter().enumerate() {
        let expect = i == 0 || i == 6 || i == 14;
        assert_eq!(e.switch, expect, "SWITCH mismatch at index {i}");
    }
}

#[test]
fn initial_context_states() {
    assert_eq!(MqContext::default().index(), 0);
    assert!(!MqContext::default().mps());
    assert_eq!(MqContext::uniform().index(), 46);
    assert!(!MqContext::uniform().mps());
    assert_eq!(MqContext::run_length().index(), 3);
    assert!(!MqContext::run_length().mps());
    assert_eq!(MqContext::zero_neighbours().index(), 4);
    assert!(!MqContext::zero_neighbours().mps());
}

#[test]
fn context_accessors() {
    let cx = MqContext::run_length();
    assert_eq!(cx.index(), 3);
    assert!(!cx.mps());
}

#[test]
fn reset_to_restores_initial() {
    let mut cx = MqContext::default();
    let bytes = [0x00u8, 0x00, 0x00];
    let mut dec = MqDecoder::new(&bytes);
    for _ in 0..8 {
        dec.decode(&mut cx);
    }
    assert_ne!(cx, MqContext::default());
    cx.reset_to(MqContext::default());
    assert_eq!(cx, MqContext::default());
}

#[test]
fn initdec_sets_a_to_0x8000() {
    let bytes = [0x12u8, 0x34, 0x56];
    let dec = MqDecoder::new(&bytes);
    assert_eq!(dec.registers().0, 0x8000);
}

#[test]
fn initdec_register_alignment_known_bytes() {
    let bytes = [0x12u8, 0x34, 0x56];
    let dec = MqDecoder::new(&bytes);
    assert_eq!(dec.registers().1, 0x091A_0000);
    assert_eq!(dec.registers().2, 1);
    assert_eq!(dec.byte_pointer(), 1);
}

#[test]
fn initdec_empty_input_uses_ff_fill() {
    let dec = MqDecoder::new(&[]);
    assert_eq!(dec.registers().0, 0x8000);
    assert_eq!(dec.registers().1, 0x7FFF_8000);
    assert_eq!(dec.registers().2, 1);
    assert_eq!(dec.byte_pointer(), 0);
}

#[test]
fn bytein_stuff_bit_after_ff() {
    let bytes = [0x00u8, 0xFF, 0x10, 0x00];
    let mut dec = MqDecoder::new(&bytes);
    let mut cx = MqContext::default();
    for _ in 0..40 {
        dec.decode(&mut cx);
    }
    assert!(dec.byte_pointer() >= 2);
}

#[test]
fn bytein_marker_keeps_bp_on_ff() {
    let bytes = [0x00u8, 0xFF, 0xFF];
    let mut dec = MqDecoder::new(&bytes);
    let mut cx = MqContext::default();
    for _ in 0..100 {
        dec.decode(&mut cx);
    }
    assert!(dec.byte_pointer() <= bytes.len());
}

#[test]
fn decode_returns_binary_decisions() {
    let bytes = [0x84u8, 0xC7, 0x3B, 0xFC, 0xE1];
    let mut dec = MqDecoder::new(&bytes);
    let mut cx = MqContext::default();
    for _ in 0..64 {
        let d = dec.decode(&mut cx);
        assert!(d == 0 || d == 1, "DECODE must return 0 or 1, got {d}");
    }
}

#[test]
fn decode_is_deterministic() {
    let bytes = [0x84u8, 0xC7, 0x3B, 0xFC, 0xE1, 0x00, 0x99];
    let mut a = MqDecoder::new(&bytes);
    let mut b = MqDecoder::new(&bytes);
    let mut ca = MqContext::default();
    let mut cb = MqContext::default();
    for _ in 0..200 {
        assert_eq!(a.decode(&mut ca), b.decode(&mut cb));
    }
    assert_eq!(ca, cb);
}

#[test]
fn a_register_stays_renormalized() {
    let bytes = [0x84u8, 0xC7, 0x3B, 0xFC, 0xE1, 0x00, 0x99, 0x55, 0xAA];
    let mut dec = MqDecoder::new(&bytes);
    let mut cx = MqContext::default();
    for _ in 0..300 {
        dec.decode(&mut cx);
        assert!(
            (0x8000..0x1_0000).contains(&dec.registers().0),
            "A out of [0x8000, 0x10000): {:#x}",
            dec.registers().0
        );
    }
}

#[test]
fn uniform_context_index_is_stable() {
    let bytes = [0x84u8, 0xC7, 0x3B, 0xFC, 0xE1, 0x00];
    let mut dec = MqDecoder::new(&bytes);
    let mut cx = MqContext::uniform();
    for _ in 0..50 {
        dec.decode(&mut cx);
        assert_eq!(cx.index(), 46);
    }
}

#[test]
fn all_ff_input_decodes_without_overrun() {
    let bytes = [0xFFu8, 0xFF];
    let mut dec = MqDecoder::new(&bytes);
    let mut ref_dec = MqDecoder::new(&bytes);
    let mut cx = MqContext::default();
    let mut rcx = MqContext::default();
    for _ in 0..256 {
        let d = dec.decode(&mut cx);
        assert!(d == 0 || d == 1);
        assert_eq!(d, ref_dec.decode(&mut rcx));
    }
    assert!(dec.byte_pointer() <= bytes.len());
}

#[test]
fn ff_fill_settles_to_a_constant_decision() {
    let bytes = [0xFFu8, 0xFF];
    let mut dec = MqDecoder::new(&bytes);
    let mut cx = MqContext::default();
    let mut tail = Vec::new();
    for i in 0..512 {
        let d = dec.decode(&mut cx);
        if i >= 256 {
            tail.push(d);
        }
    }
    let first = tail[0];
    assert!(
        tail.iter().all(|&d| d == first),
        "0xFF fill tail should be a constant run, got mixed symbols"
    );
}
