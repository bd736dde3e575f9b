use zune_jpeg::errors::DecodeErrors;
use zune_jpeg::Decoder;

#[test]
fn eof() {
    let mut decoder = Decoder::new();

    let err = decoder.decode_buffer(&[0xff, 0xd8, 0xa4]).unwrap_err();

    assert!(matches!(err, zune_jpeg::errors::DecodeErrors::Format(_)));
}

#[test]
fn bad_ff_marker_size() {
    let mut decoder = Decoder::new();

    let err = decoder
        .decode_buffer(&[0xff, 0xd8, 0xff, 0x00, 0x00, 0x00])
        .unwrap_err();

    assert!(
        matches!(err, zune_jpeg::errors::DecodeErrors::Format(x) if x == "Got marker with invalid raw size 0")
    );
}

#[test]
fn wrong_magic_bytes() {
    let mut decoder = Decoder::new();
    let err = decoder.decode_buffer(&[0x89, 0x50, 0x4e, 0x47]).unwrap_err();
    assert!(matches!(err, DecodeErrors::IllegalMagicBytes(0x8950)));
}

#[test]
fn too_short_for_magic_bytes() {
    let mut decoder = Decoder::new();
    let err = decoder.decode_buffer(&[0xff]).unwrap_err();
    assert!(matches!(err, DecodeErrors::ExhaustedData));
    let err = decoder.read_headers(&[]).unwrap_err();
    assert!(matches!(err, DecodeErrors::ExhaustedData));
}

#[test]
fn unsupported_frame_kind() {
    // SOF1, extended sequential Huffman
    let mut decoder = Decoder::new();
    let err = decoder
        .decode_buffer(&[0xff, 0xd8, 0xff, 0xc1, 0x00, 0x0b])
        .unwrap_err();
    assert!(matches!(
        err,
        DecodeErrors::Unsupported(zune_jpeg::errors::UnsupportedSchemes::ExtendedSequentialHuffman)
    ));
}

#[test]
fn premature_end_of_image() {
    let mut decoder = Decoder::new();
    let err = decoder.decode_buffer(&[0xff, 0xd8, 0xff, 0xd9]).unwrap_err();
    assert!(matches!(err, DecodeErrors::Format(_)));
}

#[test]
fn twelve_bit_precision_refused() {
    let mut decoder = Decoder::new();
    let data = [
        0xff, 0xd8, 0xff, 0xc0, 0x00, 0x0b, 0x0c, 0x00, 0x08, 0x00, 0x08, 0x01, 0x01, 0x11, 0x00,
    ];
    let err = decoder.decode_buffer(&data).unwrap_err();
    assert!(matches!(err, DecodeErrors::SofError(_)));
}

#[test]
fn zero_width_refused() {
    let mut decoder = Decoder::new();
    let data = [
        0xff, 0xd8, 0xff, 0xc0, 0x00, 0x0b, 0x08, 0x00, 0x08, 0x00, 0x00, 0x01, 0x01, 0x11, 0x00,
    ];
    let err = decoder.decode_buffer(&data).unwrap_err();
    assert!(matches!(err, DecodeErrors::ZeroError));
}

#[test]
fn too_many_pixels_refused() {
    let mut decoder = Decoder::new();
    // 65535 x 65535
    let data = [
        0xff, 0xd8, 0xff, 0xc0, 0x00, 0x0b, 0x08, 0xff, 0xff, 0xff, 0xff, 0x01, 0x01, 0x11, 0x00,
    ];
    let err = decoder.decode_buffer(&data).unwrap_err();
    assert!(matches!(err, DecodeErrors::LargeDimensions(4294836225)));
}

#[test]
fn sixteen_bit_quantization_table_refused() {
    let mut decoder = Decoder::new();
    let mut data = vec![0xff, 0xd8, 0xff, 0xdb, 0x00, 0x83, 0x10];
    data.extend_from_slice(&[1u8; 128]);
    let err = decoder.decode_buffer(&data).unwrap_err();
    assert!(matches!(err, DecodeErrors::DqtError(_)));
}

#[test]
fn oversized_huffman_table_refused() {
    let mut decoder = Decoder::new();
    let mut data = vec![0xff, 0xd8, 0xff, 0xc4, 0x01, 0x20, 0x00];
    // 16 codes of each length: 256 + more than 256 symbols
    data.extend_from_slice(&[17u8; 16]);
    let err = decoder.decode_buffer(&data).unwrap_err();
    assert!(matches!(err, DecodeErrors::HuffmanDecode(_)));
}

#[test]
fn scan_without_components_refused() {
    let mut decoder = Decoder::new();
    let data = [0xff, 0xd8, 0xff, 0xda, 0x00, 0x06, 0x00, 0x00, 0x3f, 0x00];
    let err = decoder.decode_buffer(&data).unwrap_err();
    assert!(matches!(err, DecodeErrors::SosError(_)));
}

#[test]
fn zero_threads_refused() {
    let mut decoder = Decoder::new();
    let err = decoder.set_num_threads(0).unwrap_err();
    assert!(matches!(err, DecodeErrors::FormatStatic(_)));
    assert!(decoder.set_num_threads(3).is_ok());
    assert_eq!(decoder.options.num_threads, 3);
}
