use fractal_pie::pixels::{
    check_palette, check_sizes, grey_from_samples, read_greyscale, read_samples, to_greyscale,
    write_greyscale, write_rgb, ColourType, PngError, Samples,
};

/// A PNG chunk with its checksum.
fn chunk(kind: &[u8; 4], data: &[u8]) -> Vec<u8> {
    let mut bytes = (data.len() as u32).to_be_bytes().to_vec();
    bytes.extend_from_slice(kind);
    bytes.extend_from_slice(data);
    let mut crc = u32::MAX;
    for byte in &bytes[4..] {
        crc ^= *byte as u32;
        for _ in 0..8 {
            crc = if crc & 1 == 1 { (crc >> 1) ^ 0xEDB8_8320 } else { crc >> 1 };
        }
    }
    bytes.extend_from_slice(&(!crc).to_be_bytes());
    bytes
}

/// A PNG file of some chunks.
fn png(chunks: &[Vec<u8>]) -> Vec<u8> {
    let mut file = vec![137u8, 80, 78, 71, 13, 10, 26, 10];
    for chunk in chunks {
        file.extend_from_slice(chunk);
    }
    file
}

/// The header of a picture of one pixel, at eight bits per sample.
fn one_pixel(colour_type: u8) -> Vec<u8> {
    chunk(b"IHDR", &[0, 0, 0, 1, 0, 0, 0, 1, 8, colour_type, 0, 0, 0])
}

/// One row of samples, stored as it is.
fn row(samples: &[u8]) -> Vec<u8> {
    let mut raw = vec![0u8];
    raw.extend_from_slice(samples);
    let mut data = vec![0x78, 0x01, 0x01];
    data.extend_from_slice(&(raw.len() as u16).to_le_bytes());
    data.extend_from_slice(&(!(raw.len() as u16)).to_le_bytes());
    data.extend_from_slice(&raw);
    let (mut a, mut b) = (1u32, 0u32);
    for byte in &raw {
        a = (a + *byte as u32) % 65521;
        b = (b + a) % 65521;
    }
    data.extend_from_slice(&(b << 16 | a).to_be_bytes());
    chunk(b"IDAT", &data)
}

fn end() -> Vec<u8> {
    chunk(b"IEND", &[])
}

#[test]
fn greyscale_files_read_back() {
    let data: Vec<u8> = (0..12u8).map(|k| k * 20).collect();
    let file = match write_greyscale(4, 3, &data) {
        Ok(file) => file,
        Err(_) => panic!("expected a file"),
    };
    assert_eq!(file[..8].to_vec(), vec![137u8, 80, 78, 71, 13, 10, 26, 10]);
    match read_greyscale(&file) {
        Ok(grey) => {
            assert_eq!((grey.width, grey.height), (4, 3));
            assert_eq!(grey.data, data);
        }
        Err(_) => panic!("expected an image"),
    }
}

#[test]
fn colour_files_read_back_as_means() {
    let data = vec![0u8, 0, 0, 10, 20, 31, 255, 255, 255, 255, 0, 0];
    let file = match write_rgb(2, 2, &data) {
        Ok(file) => file,
        Err(_) => panic!("expected a file"),
    };
    match read_greyscale(&file) {
        Ok(grey) => {
            assert_eq!((grey.width, grey.height), (2, 2));
            assert_eq!(grey.data, vec![0u8, 20, 255, 85]);
        }
        Err(_) => panic!("expected an image"),
    }
}

#[test]
fn what_is_no_png_is_refused() {
    assert!(matches!(read_greyscale(b"PIE1"), Err(PngError::Decoding(_))));
    assert!(matches!(read_greyscale(&[]), Err(PngError::Decoding(_))));
    let file = match write_greyscale(2, 2, &[1, 2, 3, 4]) {
        Ok(file) => file,
        Err(_) => panic!("expected a file"),
    };
    assert!(matches!(read_greyscale(&file[..file.len() / 2]), Err(PngError::Decoding(_))));
}

#[test]
fn incomplete_images_are_not_written() {
    assert!(matches!(write_greyscale(2, 2, &[0; 3]), Err(PngError::Encoding(_))));
    assert!(matches!(write_greyscale(2, 2, &[0; 5]), Err(PngError::Encoding(_))));
    assert!(matches!(write_greyscale(0, 2, &[]), Err(PngError::Encoding(_))));
    assert!(matches!(write_greyscale(2, 0, &[]), Err(PngError::Encoding(_))));
    assert!(matches!(write_rgb(1, 1, &[0; 1]), Err(PngError::Encoding(_))));
    assert!(matches!(write_rgb(1, 1, &[0; 3]), Ok(_)));
}

#[test]
fn every_layout_has_its_grey() {
    let data = [9u8, 1, 2, 250, 251, 253, 7];
    assert_eq!(to_greyscale(ColourType::Grayscale, &data), Ok(data.to_vec()));
    assert_eq!(to_greyscale(ColourType::GrayscaleAlpha, &data), Ok(vec![9, 2, 251]));
    assert_eq!(to_greyscale(ColourType::Rgb, &data), Ok(vec![4, 251]));
    assert_eq!(to_greyscale(ColourType::Rgba, &data), Ok(vec![4]));
}

#[test]
fn palettes_are_refused() {
    let refused = "unsupported PNG colour type: Indexed".to_string();
    assert_eq!(to_greyscale(ColourType::Indexed, &[1]), Err(refused.clone()));
    let samples =
        Samples { colour_type: ColourType::Indexed, width: 1, height: 1, data: vec![0] };
    assert_eq!(grey_from_samples(&samples).err(), Some(refused));
}

#[test]
fn samples_become_an_image() {
    let samples =
        Samples { colour_type: ColourType::GrayscaleAlpha, width: 1, height: 2, data: vec![3, 9, 4, 9] };
    match grey_from_samples(&samples) {
        Ok(grey) => {
            assert_eq!((grey.width, grey.height), (1, 2));
            assert_eq!(grey.data, vec![3u8, 4]);
        }
        Err(_) => panic!("expected an image"),
    }
}

#[test]
fn palettes_are_spread_out() {
    let file = png(&[one_pixel(3), chunk(b"PLTE", &[9, 9, 9, 10, 20, 31]), row(&[1]), end()]);
    match read_samples(&file) {
        Ok(samples) => {
            assert_eq!(samples.colour_type, ColourType::Rgb);
            assert_eq!((samples.width, samples.height), (1, 1));
            assert_eq!(samples.data, vec![10u8, 20, 31]);
        }
        Err(_) => panic!("expected samples"),
    }
    assert_eq!(read_greyscale(&file).ok().map(|grey| grey.data), Some(vec![20u8]));

    let full: Vec<u8> = (0..768u32).map(|k| (k / 3) as u8).collect();
    let file = png(&[one_pixel(3), chunk(b"PLTE", &full), row(&[255]), end()]);
    assert_eq!(read_greyscale(&file).ok().map(|grey| grey.data), Some(vec![255u8]));
}

#[test]
fn palettes_of_broken_length_are_refused() {
    for len in [1usize, 2, 4, 5, 767, 769, 771] {
        let file = png(&[one_pixel(3), chunk(b"PLTE", &vec![7; len]), row(&[0]), end()]);
        assert!(!check_palette(&file));
        match read_samples(&file) {
            Err(PngError::Unsupported(message)) => {
                assert_eq!(message, "unsupported PNG palette length")
            }
            _ => panic!("expected an error"),
        }
        match read_greyscale(&file) {
            Err(PngError::Unsupported(message)) => {
                assert_eq!(message, "unsupported PNG palette length")
            }
            _ => panic!("expected an error"),
        }
    }
}

#[test]
fn palettes_that_nothing_refers_to_do_not_matter() {
    let suggested = png(&[one_pixel(2), chunk(b"PLTE", &[7]), row(&[1, 2, 3]), end()]);
    assert!(check_palette(&suggested));
    assert_eq!(read_greyscale(&suggested).ok().map(|grey| grey.data), Some(vec![2u8]));

    let late = png(&[
        one_pixel(3),
        chunk(b"PLTE", &[40, 40, 40]),
        row(&[0]),
        chunk(b"PLTE", &[7]),
        end(),
    ]);
    assert!(check_palette(&late));
    assert_eq!(read_greyscale(&late).ok().map(|grey| grey.data), Some(vec![40u8]));
}

#[test]
fn missing_palettes_are_not_decoded() {
    let none = png(&[one_pixel(3), row(&[0]), end()]);
    let empty = png(&[one_pixel(3), chunk(b"PLTE", &[]), row(&[0]), end()]);
    let mut cut = png(&[one_pixel(3), chunk(b"PLTE", &[7])]);
    cut.truncate(cut.len() - 1);
    for file in [none, empty, cut] {
        assert!(check_palette(&file));
        assert!(matches!(read_samples(&file), Err(PngError::Decoding(_))));
    }
}

#[test]
fn sizes_that_overflow_are_told() {
    assert!(check_sizes(ColourType::Grayscale, 2, 2, &[0; 4]));
    assert!(check_sizes(ColourType::Rgb, 2, 2, &[0; 3]));
    assert!(check_sizes(ColourType::Rgb, 0, 0, &[]));
    assert!(!check_sizes(ColourType::Rgb, u32::MAX, u32::MAX, &[]));
    assert!(!check_sizes(ColourType::Rgba, u32::MAX, u32::MAX, &[]));
}
