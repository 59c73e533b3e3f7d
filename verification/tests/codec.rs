use fractal_pie::canvas::render;
use fractal_pie::codec::{
    decode_to_image, encode_to_vec, try_decode_to_image, try_encode_to_vec, Encoded,
};
use fractal_pie::compress::{compress, try_compress};
use fractal_pie::fit::{Fitter, NormalSums};
use fractal_pie::header::{read_header, write_header, PieInfo, MODE_COLOUR, MODE_GREY};
use fractal_pie::image::{
    square_edge, Colour, Grey, Image, Options, PieError, CHROMA_MAX_ERROR, MAX_ERROR,
};
use fractal_pie::plane::Plane;
use fractal_pie::walk::walk;

fn det3(m: &[[f64; 3]; 3]) -> f64 {
    m[0][0] * (m[1][1] * m[2][2] - m[1][2] * m[2][1])
        - m[0][1] * (m[1][0] * m[2][2] - m[1][2] * m[2][0])
        + m[0][2] * (m[1][0] * m[2][1] - m[1][1] * m[2][0])
}

fn solve(sums: NormalSums) -> Plane {
    let sxx = sums.sxx6 as f64 / 6.0;
    let syx = sums.syx4 as f64 / 4.0;
    let sx = sums.sx2 as f64 / 2.0;
    let sn = sums.sn as f64;
    let a = [[sxx, syx, sx], [syx, sxx, sx], [sx, sx, sn]];
    let b = [sums.sxz as f64, sums.syz as f64, sums.sz as f64];
    let d = det3(&a);
    let mut found = [0i64; 3];
    for k in 0..3 {
        let mut m = a;
        for r in 0..3 {
            m[r][k] = b[r];
        }
        found[k] = (det3(&m) / d + 0.499999) as i64;
    }
    Plane { a: found[0], b: found[1], c: found[2] }
}

fn exceeds(error: i64, pixels: i64, bound: u64) -> bool {
    error as f64 / pixels as f64 > f64::from_bits(bound)
}

fn encode(image: &Image, options: Options) -> Result<Encoded, PieError> {
    encode_to_vec(image, options, &Fitter { solve, exceeds })
}

fn bounds(luma: f64, chroma: f64) -> Options {
    Options { max_error: luma.to_bits(), chroma_max_error: chroma.to_bits() }
}

fn grey_image(width: usize, height: usize, f: impl Fn(usize, usize) -> u8) -> Grey {
    let mut data = vec![0u8; width * height];
    for r in 0..height {
        for c in 0..width {
            data[r * width + c] = f(r, c);
        }
    }
    Grey { width, height, data }
}

fn grey_pixels(decoded: Result<(Image, PieInfo), PieError>) -> Vec<u8> {
    match decoded {
        Ok((Image::Grey(g), _)) => g.data,
        _ => panic!("expected greyscale"),
    }
}

#[test]
fn header_round_trips() {
    let mut bytes = Vec::new();
    write_header(&mut bytes, MODE_COLOUR, 512, 256, Options::default());
    let (info, payload) = read_header(&bytes).unwrap();
    assert!(info.colour);
    assert_eq!(info.width, 512);
    assert_eq!(info.height, 256);
    assert_eq!(info.max_error, Options::default().max_error);
    assert!(payload.is_empty());
}

#[test]
fn rejects_bad_magic() {
    let mut bytes = Vec::new();
    write_header(&mut bytes, MODE_GREY, 8, 8, Options::default());
    bytes[0] = b'X';
    assert!(read_header(&bytes).is_err());
    assert_eq!(read_header(&bytes).unwrap_err(), PieError::BadMagic);
}

#[test]
fn single_pixel_round_trips() {
    let image = Image::Grey(grey_image(1, 1, |_, _| 137));
    let encoded = encode(&image, Options::default()).unwrap();
    let (decoded, info) = decode_to_image(&encoded.bytes).unwrap();
    assert_eq!((info.width, info.height), (1, 1));
    match decoded {
        Image::Grey(g) => assert_eq!(g.data, vec![137]),
        _ => panic!("expected greyscale"),
    }
}

#[test]
fn grey_round_trip_matches_render() {
    // A smooth ramp plus a noisy block, so the tree both splits and prunes.
    let image = Image::Grey(grey_image(64, 64, |r, c| {
        let ramp = (r * 2 + c * 3) as u8;
        if (16..32).contains(&r) && (16..32).contains(&c) {
            ramp.wrapping_add(97)
        } else {
            ramp
        }
    }));

    let encoded = encode(&image, Options::default()).unwrap();
    let (decoded, _) = decode_to_image(&encoded.bytes).unwrap();

    let expected = match &image {
        Image::Grey(g) => {
            let tree = walk(
                &g.data,
                g.width,
                0,
                0,
                g.width,
                MAX_ERROR,
                &Fitter { solve, exceeds },
            );
            render(g.width, g.height, &tree.leaves)
        }
        _ => unreachable!(),
    };

    match decoded {
        Image::Grey(g) => assert_eq!(g.data, expected),
        _ => panic!("expected greyscale"),
    }
}

#[test]
fn colour_round_trip_matches_render() {
    let width: usize = 32;
    let height: usize = 32;
    let cw = width.div_ceil(2);
    let ch = height.div_ceil(2);

    let y: Vec<u8> = (0..width * height).map(|i| ((i * 5) % 256) as u8).collect();
    let cb: Vec<u8> = (0..cw * ch).map(|i| ((i * 11 + 40) % 256) as u8).collect();
    let cr: Vec<u8> = (0..cw * ch).map(|i| ((i * 17 + 90) % 256) as u8).collect();

    let image = Image::Colour(Colour {
        width,
        height,
        y: y.clone(),
        cb: cb.clone(),
        cr: cr.clone(),
    });

    let encoded = encode(&image, Options::default()).unwrap();
    let (decoded, info) = decode_to_image(&encoded.bytes).unwrap();
    assert!(info.colour);

    // Luma uses MAX_ERROR; chroma uses CHROMA_MAX_ERROR.
    let fitter = Fitter { solve, exceeds };
    let expected_y = {
        let tree = walk(&y, width, 0, 0, width, MAX_ERROR, &fitter);
        render(width, height, &tree.leaves)
    };
    let expected_cb = {
        let tree = walk(&cb, cw, 0, 0, cw, CHROMA_MAX_ERROR, &fitter);
        render(cw, ch, &tree.leaves)
    };
    let expected_cr = {
        let tree = walk(&cr, cw, 0, 0, cw, CHROMA_MAX_ERROR, &fitter);
        render(cw, ch, &tree.leaves)
    };

    match decoded {
        Image::Colour(c) => {
            assert_eq!(c.y, expected_y);
            assert_eq!(c.cb, expected_cb);
            assert_eq!(c.cr, expected_cr);
        }
        _ => panic!("expected colour"),
    }
}

#[test]
fn entropy_coding_beats_the_naive_estimate() {
    // A natural-ish image: smooth gradients with structure. The adaptive
    // coder should beat "1 bit per tree entry + 3 bytes per leaf".
    let image = Image::Grey(grey_image(128, 128, |r, c| {
        let base = 40 + (r as i32 / 4) + (c as i32 / 2);
        let ripple = if (r / 8 + c / 8) % 2 == 0 { 6 } else { -6 };
        (base + ripple).clamp(0, 255) as u8
    }));

    let encoded = encode(&image, Options::default()).unwrap();
    assert!(
        (encoded.bytes.len() as u64) < encoded.estimate,
        "coded {} bytes did not beat estimate {} bytes",
        encoded.bytes.len(),
        encoded.estimate
    );
    assert_eq!((encoded.bytes.len(), encoded.estimate), (213, 1078));
}

#[test]
fn default_bounds_are_32_and_64() {
    assert_eq!(f64::from_bits(Options::default().max_error), 32.0);
    assert_eq!(f64::from_bits(Options::default().chroma_max_error), 64.0);
}

#[test]
fn a_pixel_becomes_this_file() {
    let image = Image::Grey(grey_image(1, 1, |_, _| 137));
    let encoded = encode(&image, Options::default()).unwrap();
    assert_eq!(
        encoded.bytes,
        vec![
            80u8, 73, 69, 49, 0, 1, 0, 0, 0, 1, 0, 0, 0, 0, 0, 0, 0, 0, 0, 64, 64, 0, 0, 0, 0, 0,
            0, 80, 64, 0, 62, 31, 252, 0, 0
        ]
    );
    assert_eq!((encoded.raw, encoded.estimate, encoded.colour), (1, 5, false));
}

#[test]
fn a_split_image_becomes_this_file() {
    let data = vec![10u8, 10, 200, 200, 10, 10, 200, 200, 10, 10, 90, 10, 10, 10, 10, 90];
    let image = Image::Grey(Grey { width: 4, height: 4, data: data.clone() });
    let encoded = encode(&image, Options::default()).unwrap();
    assert_eq!(
        encoded.bytes,
        vec![
            80u8, 73, 69, 49, 0, 4, 0, 0, 0, 4, 0, 0, 0, 0, 0, 0, 0, 0, 0, 64, 64, 0, 0, 0, 0, 0,
            0, 80, 64, 0, 143, 246, 174, 48, 121, 165, 3, 143, 57, 220, 110, 71, 220, 209, 95, 236
        ]
    );
    assert_eq!((encoded.raw, encoded.estimate), (16, 30));
    assert_eq!(grey_pixels(decode_to_image(&encoded.bytes)), data);
}

#[test]
fn a_ramp_becomes_one_leaf() {
    let image = Image::Grey(grey_image(4, 4, |r, c| (2 * r + 3 * c + 5) as u8));
    let encoded = encode(&image, Options::default()).unwrap();
    assert_eq!(encoded.bytes[29..].to_vec(), vec![0u8, 113, 215, 247, 168, 0, 0, 0]);
    assert_eq!(encoded.estimate, 5);
}

#[test]
fn a_colour_image_becomes_this_file() {
    let image = Image::Colour(Colour {
        width: 2,
        height: 2,
        y: vec![50; 4],
        cb: vec![60],
        cr: vec![200],
    });
    let encoded = encode(&image, Options::default()).unwrap();
    assert_eq!(
        encoded.bytes,
        vec![
            80u8, 73, 69, 49, 1, 2, 0, 0, 0, 2, 0, 0, 0, 0, 0, 0, 0, 0, 0, 64, 64, 0, 0, 0, 0, 0,
            0, 80, 64, 0, 31, 227, 99, 248, 57, 254, 32, 0, 0, 0
        ]
    );
    assert_eq!((encoded.raw, encoded.estimate, encoded.colour), (12, 11, true));
    match decode_to_image(&encoded.bytes) {
        Ok((Image::Colour(c), info)) => {
            assert_eq!((c.width, c.height), (2, 2));
            assert_eq!((c.y, c.cb, c.cr), (vec![50u8; 4], vec![60u8], vec![200u8]));
            assert!(info.colour);
        }
        _ => panic!("expected colour"),
    }
}

#[test]
fn a_large_image_becomes_these_bytes() {
    let image = Image::Grey(grey_image(256, 256, |r, c| {
        let ripple = if (r / 8 + c / 8) % 2 == 0 { 6i64 } else { -6 };
        ((40 + r / 4 + c / 2) as i64 + ripple).rem_euclid(256) as u8
    }));
    let encoded = encode(&image, Options::default()).unwrap();
    assert_eq!((encoded.bytes.len(), encoded.raw, encoded.estimate), (641, 65536, 4310));
    let digest = encoded
        .bytes
        .iter()
        .enumerate()
        .fold(0u64, |sum, (i, &b)| (sum + (i as u64 + 1) * b as u64) % 1000003);
    assert_eq!(digest, 260000);
    let total: u64 =
        grey_pixels(decode_to_image(&encoded.bytes)).iter().map(|&v| v as u64).sum();
    assert_eq!(total, 8716288);
}

#[test]
fn an_odd_edge_round_trips_unsplit() {
    let image = Image::Grey(grey_image(3, 3, |_, _| 7));
    let encoded = encode(&image, Options::default()).unwrap();
    assert_eq!(encoded.bytes[29..].to_vec(), vec![0u8, 31, 238, 28, 0, 0, 0]);
    assert_eq!(grey_pixels(decode_to_image(&encoded.bytes)), vec![7u8; 9]);
}

#[test]
fn an_odd_edge_that_splits_is_not_encoded() {
    let image = Image::Grey(grey_image(3, 3, |r, c| if (r + c) % 2 == 0 { 0 } else { 200 }));
    let fitter = Fitter { solve, exceeds };
    assert!(try_encode_to_vec(&image, Options::default(), &fitter).is_none());
}

#[test]
fn an_image_without_its_pixels_is_not_encoded() {
    let image = Image::Grey(Grey { width: 4, height: 4, data: vec![1; 15] });
    let fitter = Fitter { solve, exceeds };
    assert!(try_encode_to_vec(&image, Options::default(), &fitter).is_none());
}

#[test]
fn an_empty_image_encodes_and_is_refused_back() {
    let image = Image::Grey(Grey { width: 0, height: 0, data: Vec::new() });
    let encoded = encode(&image, Options::default()).unwrap();
    assert_eq!((encoded.raw, encoded.estimate), (0, 5));
    assert_eq!(decode_to_image(&encoded.bytes).err(), Some(PieError::Degenerate));
}

#[test]
fn images_have_to_be_square() {
    let refused = PieError::NotSquare { width: 2, height: 3 };
    assert_eq!(square_edge(2, 3), Err(refused));
    assert_eq!(square_edge(3, 3), Ok(3));
    assert_eq!(refused.message(), "image must be square, got 2x3");
    let grey = Image::Grey(grey_image(2, 3, |_, _| 0));
    assert_eq!(encode(&grey, Options::default()).err(), Some(refused));
    let colour = Image::Colour(Colour {
        width: 2,
        height: 3,
        y: vec![0; 6],
        cb: vec![0; 2],
        cr: vec![0; 2],
    });
    assert_eq!(encode(&colour, Options::default()).err(), Some(refused));
    assert_eq!(
        compress(&grey_image(2, 3, |_, _| 0), &Fitter { solve, exceeds }).err(),
        Some(refused)
    );
}

#[test]
fn chroma_planes_round_up() {
    let colour = Colour { width: 5, height: 4, y: Vec::new(), cb: Vec::new(), cr: Vec::new() };
    assert_eq!(colour.chroma_dims(), (3, 2));
}

#[test]
fn refused_files_say_why() {
    let mut bytes = Vec::new();
    write_header(&mut bytes, MODE_GREY, 8, 8, Options::default());
    assert_eq!(bytes.len(), 29);
    assert_eq!(decode_to_image(&bytes[..28]).err(), Some(PieError::TooShort));
    assert_eq!(PieError::TooShort.message(), "file is too short to be a .pie file");
    assert_eq!(PieError::BadMagic.message(), "not a .pie file (bad magic)");
    bytes[4] = 2;
    assert_eq!(decode_to_image(&bytes).err(), Some(PieError::UnknownMode(2)));
    assert_eq!(PieError::UnknownMode(213).message(), "unknown .pie mode 213");

    let mut bytes = Vec::new();
    write_header(&mut bytes, MODE_GREY, 8, 0, Options::default());
    assert_eq!(decode_to_image(&bytes).err(), Some(PieError::Degenerate));
    assert_eq!(PieError::Degenerate.message(), "degenerate .pie dimensions");

    let mut bytes = Vec::new();
    write_header(&mut bytes, MODE_COLOUR, 8, 16, Options::default());
    let refused = PieError::NotSquare { width: 8, height: 16 };
    assert_eq!(decode_to_image(&bytes).err(), Some(refused));
}

#[test]
fn an_image_too_large_for_memory_is_not_decoded() {
    let mut bytes = Vec::new();
    write_header(&mut bytes, MODE_GREY, u32::MAX, u32::MAX, Options::default());
    assert!(try_decode_to_image(&bytes).is_none());
}

#[test]
fn a_truncated_payload_reads_as_zeros() {
    let image = Image::Grey(grey_image(16, 16, |r, c| (r * r * 3 + c * 31) as u8));
    let encoded = encode(&image, Options::default()).unwrap();
    let cut = encoded.bytes[..40].to_vec();
    let mut padded = cut.clone();
    padded.extend_from_slice(&[0u8; 100]);
    let shown = grey_pixels(decode_to_image(&cut));
    assert_eq!(shown.len(), 256);
    assert_eq!(shown, grey_pixels(decode_to_image(&padded)));
}

#[test]
fn a_damaged_payload_stays_inside_a_power_of_two() {
    for seed in 0..50u32 {
        let mut bytes = Vec::new();
        write_header(&mut bytes, MODE_COLOUR, 32, 32, Options::default());
        for i in 0..200u32 {
            bytes.push((i.wrapping_mul(2654435761).wrapping_add(seed * 40503) >> 13) as u8);
        }
        match decode_to_image(&bytes) {
            Ok((Image::Colour(c), _)) => {
                assert_eq!((c.y.len(), c.cb.len(), c.cr.len()), (1024, 256, 256));
            }
            _ => panic!("expected colour"),
        }
    }
}

#[test]
fn the_bounds_in_a_header_are_metadata() {
    let image = Image::Grey(grey_image(16, 16, |r, c| (r * 40 + c * 9) as u8));
    let encoded = encode(&image, bounds(8.5, 3.25)).unwrap();
    let (_, info) = decode_to_image(&encoded.bytes).unwrap();
    assert_eq!(f64::from_bits(info.max_error), 8.5);
    assert_eq!(f64::from_bits(info.chroma_max_error), 3.25);
    let mut other = encoded.bytes.clone();
    for byte in &mut other[13..29] {
        *byte ^= 0x5A;
    }
    assert_eq!(
        grey_pixels(decode_to_image(&other)),
        grey_pixels(decode_to_image(&encoded.bytes))
    );
}

#[test]
fn a_looser_bound_makes_a_shorter_estimate() {
    let image = Image::Grey(grey_image(32, 32, |r, c| (r * r + 7 * c) as u8));
    let tight = encode(&image, bounds(16.0, 64.0)).unwrap();
    let loose = encode(&image, bounds(64.0, 64.0)).unwrap();
    assert!(loose.estimate < tight.estimate);
}

#[test]
fn the_decoded_image_is_the_reference_render() {
    let image = grey_image(64, 64, |r, c| (r * c / 5) as u8);
    let compressed = compress(&image, &Fitter { solve, exceeds }).unwrap();
    let encoded = encode(&Image::Grey(image), Options::default()).unwrap();
    assert_eq!(grey_pixels(decode_to_image(&encoded.bytes)), compressed.pixels);
    assert_eq!((compressed.raw, compressed.estimate), (encoded.raw, encoded.estimate));
}

#[test]
fn compressing_an_odd_edge_may_leave_the_image() {
    let image = grey_image(3, 3, |r, c| if (r + c) % 2 == 0 { 0 } else { 200 });
    assert!(try_compress(&image, &Fitter { solve, exceeds }).is_none());
}

fn mean_error(source: &[u8], shown: &[u8]) -> f64 {
    assert_eq!(source.len(), shown.len());
    let total: i64 = source
        .iter()
        .zip(shown)
        .map(|(&a, &b)| (a as i64 - b as i64) * (a as i64 - b as i64))
        .sum();
    total as f64 / source.len() as f64
}

fn colour_planes(n: usize) -> (Vec<u8>, Vec<u8>, Vec<u8>) {
    let half = n.div_ceil(2);
    let y = (0..n * n).map(|i| (i * i / 3 % 256) as u8).collect();
    let cb = (0..half * half).map(|i| (i * 13 % 256) as u8).collect();
    let cr = (0..half * half).map(|i| (i * i % 256) as u8).collect();
    (y, cb, cr)
}

fn colour_round_trip(n: usize, options: Options) -> (Vec<u8>, Vec<u8>, Vec<u8>) {
    let (y, cb, cr) = colour_planes(n);
    let image = Image::Colour(Colour { width: n, height: n, y, cb, cr });
    let encoded = encode(&image, options).unwrap();
    match decode_to_image(&encoded.bytes) {
        Ok((Image::Colour(c), _)) => (c.y, c.cb, c.cr),
        _ => panic!("expected colour"),
    }
}

#[test]
fn decoded_planes_are_within_their_bounds() {
    for n in [1usize, 2, 16, 64] {
        let (y, cb, cr) = colour_planes(n);
        let (shown, shown_cb, shown_cr) = colour_round_trip(n, bounds(40.0, 900.0));
        assert!(mean_error(&y, &shown) <= 40.0);
        assert!(mean_error(&cb, &shown_cb) <= 900.0);
        assert!(mean_error(&cr, &shown_cr) <= 900.0);
    }
}

#[test]
fn a_zero_bound_loses_nothing() {
    let source = grey_image(32, 32, |r, c| (r * r * 5 + c * c * 11) as u8);
    let data = source.data.clone();
    let encoded = encode(&Image::Grey(source), bounds(0.0, 64.0)).unwrap();
    assert_eq!(grey_pixels(decode_to_image(&encoded.bytes)), data);

    let (y, cb, cr) = colour_planes(32);
    let (shown, shown_cb, shown_cr) = colour_round_trip(32, bounds(500.0, 0.0));
    assert!(shown != y);
    assert_eq!((shown_cb, shown_cr), (cb.clone(), cr.clone()));
    let (shown, _, _) = colour_round_trip(32, bounds(0.0, 500.0));
    assert_eq!(shown, y);
}

#[test]
fn looser_bounds_shrink_the_estimate_of_a_colour_image() {
    let (y, cb, cr) = colour_planes(64);
    let image = Image::Colour(Colour { width: 64, height: 64, y, cb, cr });
    let mut last = u64::MAX;
    for bound in [0.0, 8.0, 64.0, 1000.0, 1e6] {
        let estimate = encode(&image, bounds(bound, 2.0 * bound)).unwrap().estimate;
        assert!(estimate <= last);
        last = estimate;
    }
}
