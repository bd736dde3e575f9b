use zune_jpeg::bitstream::{huff_extend, BitStream};
use zune_jpeg::color_convert::{
    choose_ycbcr_to_rgb_convert_func, ycbcr_to_grayscale, ycbcr_to_rgb, ycbcr_to_rgb_16,
    ycbcr_to_rgb_16_scalar, ycbcr_to_rgb_scalar, ycbcr_to_rgba, ycbcr_to_rgba_16,
    ycbcr_to_rgba_16_scalar, ycbcr_to_rgba_scalar, ycbcr_to_ycbcr, ColorConvert16Ptr,
    ColorConvertPtr,
};
use zune_jpeg::components::{ComponentID, Components, SubSampRatios, UpSampler};
use zune_jpeg::decoder::ZuneJpegOptions;
use zune_jpeg::errors::DecodeErrors;
use zune_jpeg::headers::{parse_app, un_zig_zag};
use zune_jpeg::huffman::HuffmanTable;
use zune_jpeg::idct::{choose_idct_func, dequantize_and_idct_int, IDCTPtr};
use zune_jpeg::marker::Marker;
use zune_jpeg::misc::{read_byte, read_u16_be, read_u16_into, read_u8, Aligned32, ByteReader, SOFMarkers, UN_ZIGZAG};
use zune_jpeg::upsampler::{
    choose_horizontal_samp_function, upsample_horizontal, upsample_horizontal_vertical, upsample_hv,
    upsample_no_op, upsample_vertical,
};
use zune_jpeg::{ColorSpace, Decoder, ImageInfo};

#[test]
fn idct_of_a_dc_only_block_is_flat() {
    let mut v = vec![0i16; 67];
    v[0] = 16;
    v[64] = 7;
    v[65] = -3;
    v[66] = 300;
    dequantize_and_idct_int(&mut v, &Aligned32([1; 64]));
    assert!(v[..64].iter().all(|p| *p == 130));
    assert_eq!(&v[64..], &[7, -3, 300]);

    let mut w = vec![0i16; 64];
    w[0] = -2;
    let mut qt = [1; 64];
    qt[0] = 8;
    dequantize_and_idct_int(&mut w, &Aligned32(qt));
    assert!(w.iter().all(|p| *p == 126));
}

#[test]
fn idct_output_is_clamped() {
    let mut v = vec![0i16; 64];
    v[0] = 2000;
    dequantize_and_idct_int(&mut v, &Aligned32([1; 64]));
    assert!(v.iter().all(|p| *p == 255));
    let mut w = vec![0i16; 64];
    w[0] = -2000;
    dequantize_and_idct_int(&mut w, &Aligned32([1; 64]));
    assert!(w.iter().all(|p| *p == 0));
    assert!(matches!(choose_idct_func(), IDCTPtr::Integer));
}

#[test]
fn rgb_conversion_values() {
    let y = [100i16; 8];
    let cb = [128i16; 8];
    let cr = [200i16; 8];
    let mut out = vec![0u8; 30];
    let mut pos = 3;
    ycbcr_to_rgb(&y, &cb, &cr, &mut out, &mut pos);
    assert_eq!(pos, 27);
    assert_eq!(&out[..3], &[0, 0, 0]);
    for p in out[3..27].chunks(3) {
        assert_eq!(p, &[201, 49, 100]);
    }
    assert_eq!(&out[27..], &[0, 0, 0]);

    let cb = [0i16; 8];
    let cr = [128i16; 8];
    let mut out = vec![0u8; 24];
    let mut pos = 0;
    ycbcr_to_rgb_scalar(&y, &cb, &cr, &mut out, &mut pos);
    for p in out.chunks(3) {
        assert_eq!(p, &[100, 144, 0]);
    }
}

#[test]
fn rgba_conversion_is_rgb_with_opaque_alpha() {
    let y: [i16; 8] = [0, 30, 60, 90, 120, 150, 180, 255];
    let cb: [i16; 8] = [255, 200, 150, 100, 50, 0, 128, 64];
    let cr: [i16; 8] = [0, 64, 128, 192, 255, 10, 20, 30];
    let mut rgb = vec![0u8; 24];
    let mut rgba = vec![0u8; 32];
    let mut p1 = 0;
    let mut p2 = 0;
    ycbcr_to_rgb(&y, &cb, &cr, &mut rgb, &mut p1);
    ycbcr_to_rgba(&y, &cb, &cr, &mut rgba, &mut p2);
    assert_eq!(p2, 32);
    for i in 0..8 {
        assert_eq!(&rgba[4 * i..4 * i + 3], &rgb[3 * i..3 * i + 3]);
        assert_eq!(rgba[4 * i + 3], 255);
    }
    let mut rgba2 = vec![0u8; 32];
    let mut p3 = 0;
    ycbcr_to_rgba_scalar(&y, &cb, &cr, &mut rgba2, &mut p3);
    assert_eq!(rgba, rgba2);
}

#[test]
fn sixteen_pixel_conversions() {
    let mut y = [0i16; 16];
    let mut cb = [0i16; 16];
    let mut cr = [0i16; 16];
    for i in 0..16 {
        y[i] = (i * 16) as i16;
        cb[i] = 128;
        cr[i] = 128;
    }
    let mut out = vec![0u8; 48];
    let mut pos = 0;
    ycbcr_to_rgb_16(&y, &cb, &cr, &mut out, &mut pos);
    assert_eq!(pos, 48);
    for i in 0..16 {
        let v = (i * 16) as u8;
        assert_eq!(&out[3 * i..3 * i + 3], &[v, v, v]);
    }
    let mut out2 = vec![0u8; 48];
    let mut pos2 = 0;
    ycbcr_to_rgb_16_scalar(&y, &cb, &cr, &mut out2, &mut pos2);
    assert_eq!(out, out2);
    let mut out3 = vec![0u8; 64];
    let mut pos3 = 0;
    ycbcr_to_rgba_16(&y, &cb, &cr, &mut out3, &mut pos3);
    assert_eq!(pos3, 64);
    let mut out4 = vec![0u8; 64];
    let mut pos4 = 0;
    ycbcr_to_rgba_16_scalar(&y, &cb, &cr, &mut out4, &mut pos4);
    assert_eq!(out3, out4);
    assert_eq!(&out3[60..], &[240, 240, 240, 255]);
}

#[test]
fn convert_routines_per_colorspace() {
    assert!(matches!(
        choose_ycbcr_to_rgb_convert_func(ColorSpace::RGB),
        Some((ColorConvert16Ptr::Rgb16, ColorConvertPtr::Rgb))
    ));
    assert!(matches!(
        choose_ycbcr_to_rgb_convert_func(ColorSpace::RGBA),
        Some((ColorConvert16Ptr::Rgba16, ColorConvertPtr::Rgba))
    ));
    assert!(matches!(
        choose_ycbcr_to_rgb_convert_func(ColorSpace::RGBX),
        Some((ColorConvert16Ptr::Rgba16, ColorConvertPtr::Rgba))
    ));
    assert!(choose_ycbcr_to_rgb_convert_func(ColorSpace::GRAYSCALE).is_none());
    assert!(choose_ycbcr_to_rgb_convert_func(ColorSpace::CMYK).is_none());
}

#[test]
fn grayscale_copies_rows() {
    // eight rows of padded width 16, image width 10: the fill is dropped
    let y: Vec<i16> = (0..128).collect();
    let mut out = vec![0u8; 80];
    ycbcr_to_grayscale(&y, 10, &mut out);
    for r in 0..8 {
        for c in 0..10 {
            assert_eq!(out[10 * r + c], (16 * r + c) as u8);
        }
    }
    // samples are written as their low byte; the rest of the output stays
    let y = vec![256i16, 257, -1, 3, 4, 5, 6, 7, 8, 9, 10, 11, 12, 13, 14, 15];
    let mut out = vec![9u8; 9];
    ycbcr_to_grayscale(&y, 1, &mut out);
    assert_eq!(out, vec![0, 255, 4, 6, 8, 10, 12, 14, 9]);
}

#[test]
fn ycbcr_interleaves_planes() {
    let y: Vec<i16> = (0..16).collect();
    let cb: Vec<i16> = (100..116).collect();
    let cr: Vec<i16> = (200..216).collect();
    let channels = [y, cb, cr];
    let mut out = vec![0u8; 48];
    ycbcr_to_ycbcr(&channels, 2, 1, 1, &mut out);
    for k in 0..8 {
        for x in 0..2 {
            let j = k * 6 + 3 * x;
            assert_eq!(out[j], (k * 2 + x) as u8);
            assert_eq!(out[j + 1], (100 + k * 2 + x) as u8);
            assert_eq!(out[j + 2], (200 + k * 2 + x) as u8);
        }
    }
    // a width of zero writes nothing
    let mut out = vec![7u8; 6];
    ycbcr_to_ycbcr(&channels, 0, 1, 1, &mut out);
    assert_eq!(out, vec![7u8; 6]);
}

#[test]
fn horizontal_upsampling_values() {
    let out = upsample_horizontal(&[0, 4, 8], 6);
    assert_eq!(out, vec![0, 1, 3, 5, 7, 8]);
    // the nearer input is weighted three times, at the end of a row too
    assert_eq!(upsample_horizontal(&[0, 0, 100], 6), vec![0, 0, 0, 25, 75, 100]);
    let flat = upsample_horizontal(&[50; 8], 16);
    assert!(flat.iter().all(|v| *v == 50));
    assert!(matches!(
        choose_horizontal_samp_function(),
        zune_jpeg::components::UpSampler::Horizontal
    ));
}

#[test]
fn vertical_upsampling_values() {
    // eight rows of one sample each: 0, 8, 16, ...
    let input: Vec<i16> = (0..8).map(|v| v * 8).collect();
    let out = upsample_vertical(&input, 16);
    // the first two rows come from the first row alone
    assert_eq!(out[0], 0);
    assert_eq!(out[1], 0);
    // then rows 1 and 2 are blended, 3 to 1 each way
    assert_eq!(out[2], (3 * 8 + 16 + 2) / 4);
    assert_eq!(out[3], (3 * 16 + 8 + 2) / 4);
    // the last row is blended with itself
    assert_eq!(out[14], 56);
    assert_eq!(out[15], 56);
    let both = upsample_hv(&[100; 8], 32);
    assert_eq!(both.len(), 32);
    assert!(both.iter().all(|v| *v == 100));
    assert!(upsample_no_op(&[1, 2, 3], 6).is_empty());
    // a constant plane halved both ways comes back at four times the size
    let full = upsample_horizontal_vertical(&[7; 16], 64);
    assert_eq!(full, vec![7; 64]);
    assert_eq!(upsample_horizontal_vertical(&[0, 8, 16, 24, 32, 40, 48, 56], 32), upsample_hv(&[0, 8, 16, 24, 32, 40, 48, 56], 32));
}

#[test]
fn huffman_table_checks() {
    // three codes of length one cannot exist
    let mut counts = [0u8; 16];
    counts[0] = 3;
    assert!(matches!(
        HuffmanTable::new(&counts, vec![0, 1, 2], false),
        Err(DecodeErrors::HuffmanDecode(_))
    ));
    // one value per code
    let mut counts = [0u8; 16];
    counts[0] = 2;
    assert!(HuffmanTable::new(&counts, vec![0], false).is_err());
    let table = HuffmanTable::new(&counts, vec![4, 5], true).unwrap();
    assert!(table.fast_ac.is_some());
    assert_eq!(table.values, vec![4, 5]);
}

#[test]
fn extend_sign_of_magnitude_bits() {
    assert_eq!(huff_extend(0, 1), -1);
    assert_eq!(huff_extend(1, 1), 1);
    assert_eq!(huff_extend(2, 3), -5);
    assert_eq!(huff_extend(6, 3), 6);
    assert_eq!(huff_extend(0, 16), -65535);
}

#[test]
fn block_decoding_follows_the_codes() {
    // DC table: code 0 stands for category 1; AC table: code 0 is end of block
    let mut counts = [0u8; 16];
    counts[0] = 1;
    let dc = HuffmanTable::new(&counts, vec![1], false).unwrap();
    let ac = HuffmanTable::new(&counts, vec![0], true).unwrap();
    // bits: 0 (category 1), 1 (magnitude +1), 0 (end of block), then ones
    let mut reader = ByteReader::from_slice(&[0x5f, 0xff, 0xd9]);
    let mut stream = BitStream::new();
    let mut block = [0i16; 64];
    let mut pred = 10;
    stream.decode_mcu_block(&mut reader, &dc, &ac, &mut block, &mut pred);
    assert_eq!(pred, 11);
    assert_eq!(block[0], 11);
    assert!(block[1..].iter().all(|v| *v == 0));
    stream.reset();
    assert_eq!(stream.bits_left, 0);
    assert!(stream.marker.is_none());
}

#[test]
fn progressive_dc_scan_scales_by_successive_low() {
    let mut counts = [0u8; 16];
    counts[0] = 1;
    let dc = HuffmanTable::new(&counts, vec![1], false).unwrap();
    let mut reader = ByteReader::from_slice(&[0x7f]);
    let mut stream = BitStream::new_progressive(0, 2, 0, 0);
    let mut block = [0i16; 64];
    let mut pred = 0;
    assert!(stream.decode_block_dc(&mut reader, &dc, &mut block, &mut pred).is_ok());
    assert_eq!(pred, 1);
    assert_eq!(block[0], 4);
    // a scan that also holds AC coefficients is refused
    let mut stream = BitStream::new_progressive(0, 0, 0, 5);
    assert!(matches!(
        stream.decode_block_dc(&mut reader, &dc, &mut block, &mut pred),
        Err(DecodeErrors::HuffmanDecode(_))
    ));
}

#[test]
fn markers_from_bytes() {
    assert!(matches!(Marker::from_u8(0xc0), Some(Marker::SOF(0))));
    assert!(matches!(Marker::from_u8(0xc2), Some(Marker::SOF(2))));
    assert!(matches!(Marker::from_u8(0xc4), Some(Marker::DHT)));
    assert!(matches!(Marker::from_u8(0xd3), Some(Marker::RST(3))));
    assert!(matches!(Marker::from_u8(0xe1), Some(Marker::APP(1))));
    assert!(matches!(Marker::from_u8(0xd9), Some(Marker::EOI)));
    assert!(Marker::from_u8(0x00).is_none());
    assert!(Marker::from_u8(0xff).is_none());
}

#[test]
fn frame_kinds() {
    assert!(matches!(SOFMarkers::from_int(0xffc0), Some(SOFMarkers::BaselineDct)));
    assert!(matches!(SOFMarkers::from_int(0xffc2), Some(SOFMarkers::ProgressiveDctHuffman)));
    assert!(SOFMarkers::from_int(0x1234).is_none());
    assert!(SOFMarkers::BaselineDct.is_sequential_dct());
    assert!(SOFMarkers::ProgressiveDctHuffman.is_progressive());
    assert!(!SOFMarkers::ProgressiveDctHuffman.is_lossless());
    assert!(SOFMarkers::LosslessHuffman.is_lossless());
    assert_eq!(ColorSpace::RGBA.num_components(), 4);
    assert_eq!(ColorSpace::YCbCr.num_components(), 3);
    assert_eq!(ColorSpace::GRAYSCALE.num_components(), 1);
}

#[test]
fn component_records() {
    let c = Components::from([1, 0x21, 2]).unwrap();
    assert!(matches!(c.component_id, ComponentID::Y));
    assert_eq!(c.horizontal_sample, 2);
    assert_eq!(c.vertical_sample, 1);
    assert_eq!(c.quantization_table_number, 2);
    assert!(matches!(Components::from([4, 0x11, 0]), Err(DecodeErrors::Format(_))));
    assert!(matches!(Components::from([2, 0x31, 0]), Err(DecodeErrors::Format(_))));
    assert!(matches!(Components::from([3, 0x11, 4]), Err(DecodeErrors::Format(_))));
}

#[test]
fn reading_bytes() {
    let mut r = ByteReader::from_slice(&[0x12, 0x34, 0x56, 0x78, 0x9a]);
    assert_eq!(read_u16_be(&mut r).unwrap(), 0x1234);
    assert_eq!(read_u8(&mut r), 0x56);
    assert_eq!(read_byte(&mut r).unwrap(), 0x78);
    assert!(matches!(read_u16_be(&mut r), Err(DecodeErrors::ExhaustedData)));
    assert!(matches!(read_byte(&mut r), Err(DecodeErrors::Format(_))));
    let mut r = ByteReader::from_slice(&[0, 1, 0, 2, 0]);
    let mut buf = vec![0u16; 3];
    assert!(matches!(read_u16_into(&mut r, &mut buf), Err(DecodeErrors::ExhaustedData)));
    assert_eq!(buf, vec![1, 2, 0]);
    // missing data reads as zero
    assert_eq!(read_u8(&mut r), 0);
}

#[test]
fn zig_zag_order_is_undone() {
    let zz: Vec<u8> = (0..64).collect();
    let natural = un_zig_zag(&zz);
    for i in 0..64 {
        assert_eq!(natural[UN_ZIGZAG[i]], i as i32);
    }
    assert_eq!(natural[8], 2);
    assert_eq!(natural[63], 63);
}

#[test]
fn app0_densities() {
    let data = [
        0x00, 0x10, b'J', b'F', b'I', b'F', 0x00, 0x01, 0x01, 0x00, 0x00, 0x48, 0x00, 0x60, 0x00,
        0x00,
    ];
    let mut r = ByteReader::from_slice(&data);
    let mut info = ImageInfo::default();
    parse_app(&mut r, Marker::APP(0), &mut info).unwrap();
    assert_eq!(info.x_density, 0x48);
    assert_eq!(info.y_density, 0x60);
    let mut r = ByteReader::from_slice(&data);
    let mut other = ImageInfo::default();
    parse_app(&mut r, Marker::APP(5), &mut other).unwrap();
    assert_eq!(other, ImageInfo::default());
}

#[test]
fn options_and_limits() {
    let opts = ZuneJpegOptions::new().set_out_colorspace(ColorSpace::RGBA).set_strict_mode(true);
    let mut decoder = Decoder::new_with_options(opts);
    assert_eq!(decoder.get_output_colorspace(), ColorSpace::RGBA);
    assert!(decoder.options.get_strict_mode());
    decoder.set_limits(100, 200);
    assert_eq!(decoder.options.max_width, 100);
    assert_eq!(decoder.options.max_height, 200);
    assert_eq!(decoder.options.get_threads(), 1);
}

#[test]
fn strict_mode_refuses_extra_bytes() {
    let opts = ZuneJpegOptions::new().set_strict_mode(true);
    let mut decoder = Decoder::new_with_options(opts);
    let err = decoder
        .decode_buffer(&[0xff, 0xd8, 0x00, 0x00, 0x00, 0x00, 0x00])
        .unwrap_err();
    assert!(matches!(err, DecodeErrors::FormatStatic(_)));
}

#[test]
fn fast_table_covers_every_short_code() {
    // codes 0 and 1, both one bit long: each fills half of the nine-bit windows
    let mut counts = [0u8; 16];
    counts[0] = 2;
    let table = HuffmanTable::new(&counts, vec![7, 9], false).unwrap();
    assert!(table.fast[..256].iter().all(|&f| f == 0));
    assert!(table.fast[256..].iter().all(|&f| f == 1));
    assert_eq!(table.size[..3].to_vec(), vec![1, 1, 0]);
    // a code of ten bits has no fast entry
    let mut counts = [0u8; 16];
    counts[0] = 1;
    counts[9] = 1;
    let table = HuffmanTable::new(&counts, vec![3, 4], false).unwrap();
    assert!(table.fast[..256].iter().all(|&f| f == 0));
    assert!(table.fast[256..].iter().all(|&f| f == 255));
}

#[test]
fn up_sampling_choice_follows_the_sampling_factors() {
    let mut d = Decoder::new();
    d.components = vec![
        Components::from([1, 0x22, 0]).unwrap(),
        Components::from([2, 0x11, 1]).unwrap(),
        Components::from([3, 0x11, 1]).unwrap(),
    ];
    d.h_max = 2;
    d.v_max = 1;
    d.set_upsampling().unwrap();
    assert_eq!(d.sub_sample_ratio, SubSampRatios::H);
    assert_eq!(d.components[0].up_sampler, UpSampler::NoOp);
    assert_eq!(d.components[1].up_sampler, UpSampler::Horizontal);
    assert_eq!(d.components[2].up_sampler, UpSampler::Horizontal);
    d.h_max = 2;
    d.v_max = 2;
    d.set_upsampling().unwrap();
    assert_eq!(d.sub_sample_ratio, SubSampRatios::HV);
    assert_eq!(d.components[2].up_sampler, UpSampler::HorizontalVertical);
    d.h_max = 1;
    d.v_max = 2;
    d.set_upsampling().unwrap();
    assert_eq!(d.sub_sample_ratio, SubSampRatios::V);
    assert_eq!(d.components[1].up_sampler, UpSampler::Vertical);
    // factors of four are not supported, and nothing changes
    d.h_max = 4;
    d.v_max = 1;
    match d.set_upsampling() {
        Err(DecodeErrors::Format(m)) => assert_eq!(m, "Unknown down-sampling method, cannot continue"),
        _ => panic!("expected a format error"),
    }
    assert_eq!(d.sub_sample_ratio, SubSampRatios::V);
}
