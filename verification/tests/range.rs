use fractal_pie::gamma::{unzigzag, zigzag, IntModels};
use fractal_pie::range::{BitModel, Decoder, Encoder};

#[test]
fn modelled_bits_round_trip() {
    // A heavily skewed stream: 1 in 16 set, but the model should still
    // reconstruct it exactly.
    let bits: Vec<u32> = (0..5000).map(|i| if i % 16 == 0 { 1 } else { 0 }).collect();
    let mut enc = Encoder::new();
    let mut model = BitModel::new();
    for &b in &bits {
        enc.encode_bit(&mut model, b);
    }
    let bytes = enc.finish();

    let mut dec = Decoder::new(&bytes);
    let mut model = BitModel::new();
    for &b in &bits {
        assert_eq!(dec.decode_bit(&mut model), b);
    }
}

#[test]
fn skew_is_compressed() {
    // 5000 bits with one 1 per 16 costs ~0.37 bits each in practice, far
    // below the 1 bit/symbol a fixed-width file would spend.
    let mut enc = Encoder::new();
    let mut model = BitModel::new();
    for i in 0..5000 {
        enc.encode_bit(&mut model, if i % 16 == 0 { 1 } else { 0 });
    }
    let bytes = enc.finish();
    assert!(bytes.len() * 8 < 2500, "coded {} bits", bytes.len() * 8);
}

#[test]
fn bits_become_these_bytes() {
    let mut enc = Encoder::new();
    let mut model = BitModel::new();
    for bit in [1u32, 0, 1, 1, 0, 0, 0, 1] {
        enc.encode_bit(&mut model, bit);
    }
    assert_eq!(enc.finish(), vec![0u8, 174, 253, 76, 96, 0]);
}

#[test]
fn anything_but_zero_is_coded_as_one() {
    let mut one = Encoder::new();
    let mut other = Encoder::default();
    let mut model = BitModel::new();
    let mut same = BitModel::default();
    for bit in [1u32, 0, 1] {
        one.encode_bit(&mut model, bit);
        other.encode_bit(&mut same, bit * 77);
    }
    assert_eq!(one.finish(), other.finish());
}

#[test]
fn no_bits_are_five_zero_bytes() {
    assert_eq!(Encoder::new().finish(), vec![0u8; 5]);
}

#[test]
fn several_models_round_trip() {
    let mut enc = Encoder::new();
    let mut models = [BitModel::new(); 3];
    let symbols: Vec<(usize, u32)> = (0..3000u32)
        .map(|i| ((i * 7 % 3) as usize, (i * i / 5) & 1))
        .collect();
    for &(k, bit) in &symbols {
        enc.encode_bit(&mut models[k], bit);
    }
    let bytes = enc.finish();
    let mut dec = Decoder::new(&bytes);
    let mut models = [BitModel::new(); 3];
    for &(k, bit) in &symbols {
        assert_eq!(dec.decode_bit(&mut models[k]), bit);
    }
}

#[test]
fn carries_run_through_pending_bytes() {
    // Ones against a model that expects zeros push the low end up to a carry
    // through a run of 0xFF bytes.
    let mut enc = Encoder::new();
    let mut model = BitModel::new();
    let bits: Vec<u32> = (0..4000u32).map(|i| if i % 97 == 96 { 1 } else { 0 }).collect();
    for &bit in &bits {
        enc.encode_bit(&mut model, 1 - bit);
    }
    let bytes = enc.finish();
    let mut dec = Decoder::new(&bytes);
    let mut model = BitModel::new();
    for &bit in &bits {
        assert_eq!(dec.decode_bit(&mut model), 1 - bit);
    }
}

#[test]
fn past_the_end_reads_as_zero() {
    let mut short = Decoder::new(&[]);
    let mut long = Decoder::new(&[0u8; 64]);
    let mut model = BitModel::new();
    let mut same = BitModel::new();
    for _ in 0..200 {
        assert_eq!(short.decode_bit(&mut model), 0);
        assert_eq!(long.decode_bit(&mut same), 0);
    }
}

#[test]
fn zigzag_round_trips() {
    for v in [-1000i64, -2, -1, 0, 1, 2, 1000, i64::MAX, i64::MIN] {
        assert_eq!(unzigzag(zigzag(v)), v);
    }
}

#[test]
fn zigzag_keeps_small_magnitudes_small() {
    let folded: Vec<u64> = [0i64, -1, 1, -2, 2, i64::MAX, i64::MIN]
        .iter()
        .map(|&v| zigzag(v))
        .collect();
    assert_eq!(folded, vec![0u64, 1, 2, 3, 4, u64::MAX - 1, u64::MAX]);
}

#[test]
fn integers_round_trip() {
    let values = [0i64, -1, 1, -2, 1000, -1000, i64::MAX, i64::MIN];
    let mut enc = Encoder::new();
    let mut models = IntModels::new();
    for &v in &values {
        models.encode_signed(&mut enc, v);
    }
    let bytes = enc.finish();
    assert_eq!(
        bytes,
        vec![
            0u8, 91, 32, 242, 74, 157, 91, 69, 96, 207, 127, 255, 255, 255, 255, 253, 71, 63, 255,
            255, 255, 255, 255, 249, 126, 63, 255, 255, 255, 255, 255, 215, 187, 209, 127, 255,
            255, 255, 253, 108, 207, 96
        ]
    );
    let mut dec = Decoder::new(&bytes);
    let mut models = IntModels::new();
    for &v in &values {
        assert_eq!(models.decode_signed(&mut dec), v);
    }
}

#[test]
fn unsigned_integers_round_trip() {
    let values = [0u64, 1, 2, 3, 255, 256, u64::MAX, 0];
    let mut enc = Encoder::new();
    let mut models = IntModels::new();
    for &v in &values {
        models.encode(&mut enc, v);
    }
    let bytes = enc.finish();
    let mut dec = Decoder::new(&bytes);
    let mut models = IntModels::new();
    for &v in &values {
        assert_eq!(models.decode(&mut dec), v);
    }
}

#[test]
fn flushed_bytes_start_with_zero_and_are_few() {
    for n in 0..300usize {
        let mut enc = Encoder::new();
        let mut models = [BitModel::new(); 2];
        for i in 0..n {
            enc.encode_bit(&mut models[i % 2], ((i * i + n) % 3) as u32);
        }
        let bytes = enc.finish();
        assert_eq!(bytes[0], 0);
        assert!(5 <= bytes.len() && bytes.len() <= n + 5);
    }
}

#[test]
fn even_the_least_likely_bit_takes_one_byte() {
    let mut enc = Encoder::new();
    let mut model = BitModel::new();
    for _ in 0..2000 {
        enc.encode_bit(&mut model, 0);
    }
    let mut rare = enc;
    for _ in 0..3 {
        rare.encode_bit(&mut model, 1);
    }
    // Zeros at 2017 in 2048 cost about 0.022 bits each.
    assert!(rare.finish().len() <= 5 + 2000 / 8 / 40 + 6);
}
