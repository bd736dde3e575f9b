use zune_jpeg::probe::probe;
use zune_jpeg::{ColorSpace, Decoder};

/// Start of image and a DQT segment with one table of ones.
fn header() -> Vec<u8> {
    let mut d = vec![0xff, 0xd8, 0xff, 0xdb, 0x00, 0x43, 0x00];
    d.extend_from_slice(&[1u8; 64]);
    d
}

/// DHT segments: a DC table and an AC table, each with a single code `0`
/// of length one standing for symbol zero.
fn huffman_tables() -> Vec<u8> {
    let mut d = vec![];
    for class in [0x00u8, 0x10] {
        d.extend_from_slice(&[0xff, 0xc4, 0x00, 0x14, class]);
        let mut counts = [0u8; 16];
        counts[0] = 1;
        d.extend_from_slice(&counts);
        d.push(0x00);
    }
    d
}

/// An 8x8 grayscale baseline image whose only block has all coefficients zero.
fn gray_image() -> Vec<u8> {
    let mut d = header();
    d.extend_from_slice(&[0xff, 0xc0, 0x00, 0x0b, 0x08, 0x00, 0x08, 0x00, 0x08, 0x01, 0x01, 0x11, 0x00]);
    d.extend_from_slice(&huffman_tables());
    d.extend_from_slice(&[0xff, 0xda, 0x00, 0x08, 0x01, 0x01, 0x00, 0x00, 0x3f, 0x00]);
    // DC code 0, AC end of block, padding ones
    d.push(0x3f);
    d.extend_from_slice(&[0xff, 0xd9]);
    d
}

/// A colour baseline image of `size` pixels square with the given sampling
/// byte for the luminance; all coefficients are zero.
fn color_image(size: u8, y_sampling: u8, data: &[u8]) -> Vec<u8> {
    let mut d = header();
    d.extend_from_slice(&[
        0xff, 0xc0, 0x00, 0x11, 0x08, 0x00, size, 0x00, size, 0x03, 0x01, y_sampling, 0x00, 0x02, 0x11,
        0x00, 0x03, 0x11, 0x00,
    ]);
    d.extend_from_slice(&huffman_tables());
    d.extend_from_slice(&[
        0xff, 0xda, 0x00, 0x0c, 0x03, 0x01, 0x00, 0x02, 0x00, 0x03, 0x00, 0x00, 0x3f, 0x00,
    ]);
    d.extend_from_slice(data);
    d.extend_from_slice(&[0xff, 0xd9]);
    d
}

#[test]
fn gray_image_decodes_to_mid_gray() {
    let mut decoder = Decoder::new();
    decoder.set_output_colorspace(ColorSpace::GRAYSCALE);
    let pixels = decoder.decode_buffer(&gray_image()).unwrap();
    assert_eq!(pixels.len(), 64);
    assert!(pixels.iter().all(|p| *p == 128));
    assert_eq!(decoder.width(), 8);
    assert_eq!(decoder.height(), 8);
    let info = decoder.info().unwrap();
    assert_eq!(info.components, 1);
    assert_eq!(info.pixel_density, 8);
}

#[test]
fn gray_image_in_rgb_has_the_rgb_size() {
    let mut decoder = Decoder::new();
    let pixels = decoder.decode_buffer(&gray_image()).unwrap();
    assert_eq!(pixels.len(), 8 * 8 * 3);
}

#[test]
fn color_image_decodes_to_mid_gray_rgb() {
    let mut decoder = Decoder::new();
    // six blocks of two zero bits each: DC code 0 and end of block
    let pixels = decoder.decode_buffer(&color_image(8, 0x11, &[0x03])).unwrap();
    assert_eq!(pixels.len(), 8 * 8 * 3);
    assert!(pixels.iter().all(|p| *p == 128));
}

#[test]
fn color_image_decodes_to_rgba_with_opaque_alpha() {
    let mut decoder = Decoder::new();
    decoder.rgba();
    assert_eq!(decoder.get_output_colorspace(), ColorSpace::RGBA);
    let pixels = decoder.decode_buffer(&color_image(8, 0x11, &[0x03])).unwrap();
    assert_eq!(pixels.len(), 8 * 8 * 4);
    for p in pixels.chunks(4) {
        assert_eq!(p, &[128, 128, 128, 255]);
    }
}

#[test]
fn color_image_decodes_to_ycbcr() {
    let mut decoder = Decoder::new();
    decoder.set_output_colorspace(ColorSpace::YCbCr);
    let pixels = decoder.decode_buffer(&color_image(8, 0x11, &[0x03])).unwrap();
    assert_eq!(pixels.len(), 8 * 8 * 3);
    assert!(pixels.iter().all(|p| *p == 128));
}

#[test]
fn subsampled_color_image_decodes() {
    let mut decoder = Decoder::new();
    // 16x16 with 2x2 luminance: four luminance blocks and two chrominance
    // blocks, twelve zero bits
    let pixels = decoder
        .decode_buffer(&color_image(16, 0x22, &[0x00, 0x0f]))
        .unwrap();
    assert_eq!(pixels.len(), 16 * 16 * 3);
    assert!(pixels.iter().all(|p| *p == 128));
}

#[test]
fn progressive_dc_only_image_decodes() {
    let mut d = header();
    d.extend_from_slice(&[
        0xff, 0xc2, 0x00, 0x11, 0x08, 0x00, 0x08, 0x00, 0x08, 0x03, 0x01, 0x11, 0x00, 0x02, 0x11,
        0x00, 0x03, 0x11, 0x00,
    ]);
    d.extend_from_slice(&huffman_tables());
    // DC first scan of the three components
    d.extend_from_slice(&[
        0xff, 0xda, 0x00, 0x0c, 0x03, 0x01, 0x00, 0x02, 0x00, 0x03, 0x00, 0x00, 0x00, 0x00,
    ]);
    d.push(0x1f);
    d.extend_from_slice(&[0xff, 0xd9]);
    let mut decoder = Decoder::new();
    let pixels = decoder.decode_buffer(&d).unwrap();
    assert_eq!(pixels.len(), 8 * 8 * 3);
    assert!(pixels.iter().all(|p| *p == 128));
}

#[test]
fn headers_only() {
    let mut decoder = Decoder::new();
    assert!(decoder.info().is_none());
    decoder.read_headers(&gray_image()).unwrap();
    assert_eq!(decoder.width(), 8);
    assert_eq!(decoder.height(), 8);
    assert!(decoder.info().is_some());
}

#[test]
fn probe_recognises_jpeg() {
    assert!(probe(&gray_image()));
    assert!(!probe(&[0x89, 0x50, 0x4e, 0x47, 0x0d, 0x0a]));
    assert!(!probe(&[]));
}

#[test]
fn output_colorspace_round_trip() {
    let mut decoder = Decoder::new();
    assert_eq!(decoder.get_output_colorspace(), ColorSpace::RGB);
    for c in [ColorSpace::GRAYSCALE, ColorSpace::YCbCr, ColorSpace::RGBX, ColorSpace::RGB] {
        decoder.set_output_colorspace(c);
        assert_eq!(decoder.get_output_colorspace(), c);
    }
}

/// A 16x8 grayscale baseline image of two blocks, each with the DC
/// difference 31 (quantized by 8) and no AC coefficients; `restart` puts a
/// restart interval of one block and a restart marker between them.
fn two_block_image(restart: bool) -> Vec<u8> {
    let mut d = vec![0xff, 0xd8, 0xff, 0xdb, 0x00, 0x43, 0x00];
    d.extend_from_slice(&[8u8; 64]);
    d.extend_from_slice(&[0xff, 0xc0, 0x00, 0x0b, 0x08, 0x00, 0x08, 0x00, 0x10, 0x01, 0x01, 0x11, 0x00]);
    // DC table: code 0 is category 0, code 1 is category 5
    d.extend_from_slice(&[0xff, 0xc4, 0x00, 0x15, 0x00, 0x02]);
    d.extend_from_slice(&[0u8; 15]);
    d.extend_from_slice(&[0x00, 0x05]);
    // AC table: code 0 ends the block
    d.extend_from_slice(&[0xff, 0xc4, 0x00, 0x14, 0x10, 0x01]);
    d.extend_from_slice(&[0u8; 15]);
    d.push(0x00);
    if restart {
        d.extend_from_slice(&[0xff, 0xdd, 0x00, 0x04, 0x00, 0x01]);
    }
    d.extend_from_slice(&[0xff, 0xda, 0x00, 0x08, 0x01, 0x01, 0x00, 0x00, 0x3f, 0x00]);
    // each block: DC code 1, magnitude bits 11111, end of block 0, one padding bit
    d.push(0xfd);
    if restart {
        d.extend_from_slice(&[0xff, 0xd0]);
    }
    d.push(0xfd);
    d.extend_from_slice(&[0xff, 0xd9]);
    d
}

#[test]
fn restart_marker_resets_the_dc_prediction() {
    let mut decoder = Decoder::new();
    decoder.set_output_colorspace(ColorSpace::GRAYSCALE);
    let pixels = decoder.decode_buffer(&two_block_image(true)).unwrap();
    assert_eq!(pixels.len(), 16 * 8);
    for row in 0..8 {
        for col in 0..8 {
            assert_eq!(pixels[row * 16 + col], pixels[row * 16 + 8 + col]);
            assert_eq!(pixels[row * 16 + col], pixels[0]);
        }
    }
    assert!(pixels[0] > 128);
}

#[test]
fn without_restart_the_dc_prediction_accumulates() {
    let mut decoder = Decoder::new();
    decoder.set_output_colorspace(ColorSpace::GRAYSCALE);
    let pixels = decoder.decode_buffer(&two_block_image(false)).unwrap();
    assert_eq!(pixels.len(), 16 * 8);
    assert!(pixels[0] > 128);
    assert!(pixels[8] > pixels[0]);
}

/// Start of image, a DQT segment of eights, a frame header of the given kind
/// for one 8x8 grayscale component, and a DC table in which code 0 is
/// category 0 and code 1 is category `category`.
fn gray_frame(kind: u8, category: u8) -> Vec<u8> {
    let mut d = vec![0xff, 0xd8, 0xff, 0xdb, 0x00, 0x43, 0x00];
    d.extend_from_slice(&[8u8; 64]);
    d.extend_from_slice(&[0xff, kind, 0x00, 0x0b, 0x08, 0x00, 0x08, 0x00, 0x08, 0x01, 0x01, 0x11, 0x00]);
    d.extend_from_slice(&[0xff, 0xc4, 0x00, 0x15, 0x00, 0x02]);
    d.extend_from_slice(&[0u8; 15]);
    d.extend_from_slice(&[0x00, category]);
    d
}

/// An AC table in which code 0 is a coefficient of one bit right after the
/// previous one and code 1 ends the block.
fn ac_table_one_coefficient() -> Vec<u8> {
    let mut d = vec![0xff, 0xc4, 0x00, 0x15, 0x10, 0x02];
    d.extend_from_slice(&[0u8; 15]);
    d.extend_from_slice(&[0x01, 0x00]);
    d
}

/// A scan header for the one component with the given spectral selection
/// and successive approximation.
fn scan_header(ss: u8, se: u8, a: u8) -> Vec<u8> {
    vec![0xff, 0xda, 0x00, 0x08, 0x01, 0x01, 0x00, ss, se, a]
}

#[test]
fn progressive_dc_refinement_matches_sequential() {
    // sequential: DC difference 63 (category 6), end of block
    let mut seq = gray_frame(0xc0, 0x06);
    seq.extend_from_slice(&ac_table_one_coefficient());
    seq.extend_from_slice(&scan_header(0, 63, 0));
    // DC code 1, magnitude 111111, AC code 1 (end of block)
    seq.extend_from_slice(&[0xff, 0x00]);
    seq.extend_from_slice(&[0xff, 0xd9]);
    // progressive: DC difference 31 shifted by one, then a refinement bit 1
    let mut prog = gray_frame(0xc2, 0x05);
    prog.extend_from_slice(&scan_header(0, 0, 0x01));
    prog.extend_from_slice(&[0xff, 0x00]);
    prog.extend_from_slice(&scan_header(0, 0, 0x10));
    prog.extend_from_slice(&[0xff, 0x00]);
    prog.extend_from_slice(&[0xff, 0xd9]);
    let mut d1 = Decoder::new();
    d1.set_output_colorspace(ColorSpace::GRAYSCALE);
    let a = d1.decode_buffer(&seq).unwrap();
    let mut d2 = Decoder::new();
    d2.set_output_colorspace(ColorSpace::GRAYSCALE);
    let b = d2.decode_buffer(&prog).unwrap();
    assert_eq!(a.len(), 64);
    assert_eq!(a, b);
    assert!(a[0] > 128);
}

#[test]
fn progressive_ac_scan_matches_sequential() {
    // sequential: DC difference 31, one AC coefficient 1, end of block
    let mut seq = gray_frame(0xc0, 0x05);
    seq.extend_from_slice(&ac_table_one_coefficient());
    seq.extend_from_slice(&scan_header(0, 63, 0));
    // 1 11111 0 1 1, then padding
    seq.extend_from_slice(&[0xfd, 0xff, 0x00]);
    seq.extend_from_slice(&[0xff, 0xd9]);
    // progressive: the DC scan, then the AC band 1..63
    let mut prog = gray_frame(0xc2, 0x05);
    prog.extend_from_slice(&scan_header(0, 0, 0));
    prog.extend_from_slice(&[0xff, 0x00]);
    prog.extend_from_slice(&ac_table_one_coefficient());
    prog.extend_from_slice(&scan_header(1, 63, 0));
    // 0 1 1, then padding
    prog.push(0x7f);
    prog.extend_from_slice(&[0xff, 0xd9]);
    let mut d1 = Decoder::new();
    d1.set_output_colorspace(ColorSpace::GRAYSCALE);
    let a = d1.decode_buffer(&seq).unwrap();
    let mut d2 = Decoder::new();
    d2.set_output_colorspace(ColorSpace::GRAYSCALE);
    let b = d2.decode_buffer(&prog).unwrap();
    assert_eq!(a.len(), 64);
    assert_eq!(a, b);
    assert!(a[0] != a[7]);
}
