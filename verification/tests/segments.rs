use zune_jpeg::bitstream::BitStream;
use zune_jpeg::components::ComponentID;
use zune_jpeg::errors::DecodeErrors;
use zune_jpeg::headers::{parse_dqt, parse_huffman, parse_sos, parse_start_of_frame};
use zune_jpeg::huffman::HuffmanTable;
use zune_jpeg::marker::Marker;
use zune_jpeg::mcu::{get_marker, make_geometry, restart};
use zune_jpeg::misc::{Aligned32, ByteReader, SOFMarkers, UN_ZIGZAG};
use zune_jpeg::worker::{post_process, post_process_prog};
use zune_jpeg::{ColorSpace, Decoder};

fn dqt_segment(info: u8, values: &[u8]) -> Vec<u8> {
    let len = 2 + 1 + values.len();
    let mut v = vec![(len >> 8) as u8, len as u8, info];
    v.extend_from_slice(values);
    v
}

#[test]
fn quantization_tables_land_in_natural_order() {
    let values: Vec<u8> = (0..64).collect();
    let mut decoder = Decoder::new();
    let mut reader = ByteReader::from_slice(&dqt_segment(0x01, &values));
    assert!(parse_dqt(&mut decoder, &mut reader).is_ok());
    let table = decoder.qt_tables[1].unwrap();
    for i in 0..64 {
        assert_eq!(table[UN_ZIGZAG[i]], i as i32);
    }
    assert!(decoder.qt_tables[0].is_none());
    assert_eq!(reader.position(), 67);
}

#[test]
fn quantization_tables_refused() {
    let values = [1u8; 64];
    let mut d = Decoder::new();
    // 16 bit precision
    let mut r = ByteReader::from_slice(&dqt_segment(0x10, &values));
    assert!(matches!(parse_dqt(&mut d, &mut r), Err(DecodeErrors::DqtError(_))));
    // a fifth slot
    let mut r = ByteReader::from_slice(&dqt_segment(0x04, &values));
    assert!(matches!(parse_dqt(&mut d, &mut r), Err(DecodeErrors::DqtError(_))));
    // values cut short
    let mut r = ByteReader::from_slice(&dqt_segment(0x00, &values[..10]));
    assert!(matches!(parse_dqt(&mut d, &mut r), Err(DecodeErrors::Format(_))));
    // no length
    let mut r = ByteReader::from_slice(&[0x00]);
    assert!(matches!(parse_dqt(&mut d, &mut r), Err(DecodeErrors::Format(_))));
    assert!(d.qt_tables.iter().all(|t| t.is_none()));
}

#[test]
fn quantization_tables_in_slots_two_and_three() {
    let values = [1u8; 64];
    let mut d = Decoder::new();
    let mut r = ByteReader::from_slice(&dqt_segment(0x02, &values));
    assert!(parse_dqt(&mut d, &mut r).is_ok());
    assert_eq!(d.qt_tables[2], Some([1i32; 64]));
    let mut r = ByteReader::from_slice(&dqt_segment(0x03, &values));
    assert!(parse_dqt(&mut d, &mut r).is_ok());
    assert_eq!(d.qt_tables[3], Some([1i32; 64]));
    assert!(d.qt_tables[0].is_none() && d.qt_tables[1].is_none());
}

fn dht_segment(info: u8, counts: &[u8; 16], values: &[u8]) -> Vec<u8> {
    let len = 2 + 17 + values.len();
    let mut v = vec![(len >> 8) as u8, len as u8, info];
    v.extend_from_slice(counts);
    v.extend_from_slice(values);
    v
}

#[test]
fn huffman_tables_land_in_their_slots() {
    let mut counts = [0u8; 16];
    counts[0] = 2;
    let mut decoder = Decoder::new();
    let mut reader = ByteReader::from_slice(&dht_segment(0x11, &counts, &[1, 2]));
    assert!(parse_huffman(&mut decoder, &mut reader).is_ok());
    let table = decoder.ac_huffman_tables[1].as_ref().unwrap();
    assert_eq!(table.values, vec![1, 2]);
    assert!(table.fast_ac.is_some());
    assert!(decoder.ac_huffman_tables[0].is_none());
    assert!(decoder.dc_huffman_tables.iter().all(|t| t.is_none()));
    // a DC table in slot 2
    let mut reader = ByteReader::from_slice(&dht_segment(0x02, &counts, &[7, 9]));
    assert!(parse_huffman(&mut decoder, &mut reader).is_ok());
    let table = decoder.dc_huffman_tables[2].as_ref().unwrap();
    assert_eq!(table.values, vec![7, 9]);
    assert!(table.fast_ac.is_none());
}

#[test]
fn huffman_tables_refused() {
    let mut d = Decoder::new();
    // three codes of length one are no code
    let mut counts = [0u8; 16];
    counts[0] = 3;
    let mut r = ByteReader::from_slice(&dht_segment(0x00, &counts, &[1, 2, 3]));
    assert!(matches!(parse_huffman(&mut d, &mut r), Err(DecodeErrors::HuffmanDecode(_))));
    // symbols cut short
    let mut counts = [0u8; 16];
    counts[1] = 3;
    let mut seg = dht_segment(0x00, &counts, &[1, 2, 3]);
    seg.truncate(seg.len() - 1);
    let mut r = ByteReader::from_slice(&seg);
    assert!(matches!(parse_huffman(&mut d, &mut r), Err(DecodeErrors::Format(_))));
    // a length below two
    let mut r = ByteReader::from_slice(&[0x00, 0x01]);
    assert!(matches!(parse_huffman(&mut d, &mut r), Err(DecodeErrors::HuffmanDecode(_))));
}

fn frame(records: &[[u8; 3]]) -> Vec<u8> {
    let len = 8 + 3 * records.len();
    let mut v = vec![(len >> 8) as u8, len as u8, 8, 0x00, 0x10, 0x00, 0x10, records.len() as u8];
    for r in records {
        v.extend_from_slice(r);
    }
    v
}

#[test]
fn frame_components_take_their_tables() {
    let mut decoder = Decoder::new();
    decoder.qt_tables[0] = Some([3; 64]);
    decoder.qt_tables[1] = Some([5; 64]);
    let mut reader = ByteReader::from_slice(&frame(&[[1, 0x22, 0], [2, 0x11, 1], [3, 0x11, 1]]));
    assert!(parse_start_of_frame(&mut reader, SOFMarkers::BaselineDct, &mut decoder).is_ok());
    assert_eq!(decoder.components.len(), 3);
    let y = &decoder.components[0];
    assert!(y.component_id == ComponentID::Y);
    assert_eq!((y.horizontal_sample, y.vertical_sample), (2, 2));
    assert_eq!(y.quantization_table.0, [3; 64]);
    let cr = &decoder.components[2];
    assert!(cr.component_id == ComponentID::Cr);
    assert_eq!(cr.quantization_table.0, [5; 64]);
    assert_eq!((decoder.h_max, decoder.v_max), (2, 2));
    assert_eq!((decoder.mcu_x, decoder.mcu_y), (1, 1));
    assert!(decoder.qt_tables.iter().all(|t| t.is_none()));
    assert_eq!((decoder.info.width, decoder.info.height), (16, 16));
    // the chrominance strides are the luminance's halved
    assert!(decoder.check_component_dimensions().is_ok());
}

#[test]
fn frame_components_refused() {
    // a record naming a table that was not given
    let mut d = Decoder::new();
    d.qt_tables[0] = Some([1; 64]);
    let mut r = ByteReader::from_slice(&frame(&[[1, 0x11, 2]]));
    assert!(matches!(
        parse_start_of_frame(&mut r, SOFMarkers::BaselineDct, &mut d),
        Err(DecodeErrors::DqtError(_))
    ));
    // an unknown component
    let mut d = Decoder::new();
    d.qt_tables[0] = Some([1; 64]);
    let mut r = ByteReader::from_slice(&frame(&[[9, 0x11, 0]]));
    assert!(matches!(
        parse_start_of_frame(&mut r, SOFMarkers::BaselineDct, &mut d),
        Err(DecodeErrors::Format(_))
    ));
    // records cut short
    let mut d = Decoder::new();
    d.qt_tables[0] = Some([1; 64]);
    let mut seg = frame(&[[1, 0x11, 0], [2, 0x11, 0]]);
    seg.truncate(seg.len() - 2);
    let mut r = ByteReader::from_slice(&seg);
    assert!(matches!(
        parse_start_of_frame(&mut r, SOFMarkers::BaselineDct, &mut d),
        Err(DecodeErrors::Format(_))
    ));
}

#[test]
fn chrominance_sampled_like_luminance_is_refused() {
    let mut decoder = Decoder::new();
    decoder.qt_tables[0] = Some([1; 64]);
    let mut reader = ByteReader::from_slice(&frame(&[[1, 0x22, 0], [2, 0x22, 0], [3, 0x11, 0]]));
    assert!(parse_start_of_frame(&mut reader, SOFMarkers::BaselineDct, &mut decoder).is_ok());
    assert!(matches!(decoder.check_component_dimensions(), Err(DecodeErrors::Format(_))));
    let mut decoder = Decoder::new();
    decoder.qt_tables[0] = Some([1; 64]);
    let mut reader = ByteReader::from_slice(&frame(&[[2, 0x11, 0]]));
    assert!(parse_start_of_frame(&mut reader, SOFMarkers::BaselineDct, &mut decoder).is_ok());
    assert!(matches!(
        decoder.check_component_dimensions(),
        Err(DecodeErrors::FormatStatic(_))
    ));
}

fn three_component_decoder() -> Decoder {
    let mut decoder = Decoder::new();
    decoder.qt_tables[0] = Some([1; 64]);
    let mut reader = ByteReader::from_slice(&frame(&[[1, 0x11, 0], [2, 0x11, 0], [3, 0x11, 0]]));
    assert!(parse_start_of_frame(&mut reader, SOFMarkers::BaselineDct, &mut decoder).is_ok());
    decoder
}

#[test]
fn scan_header_sets_tables_by_identifier() {
    let mut decoder = three_component_decoder();
    let mut reader =
        ByteReader::from_slice(&[0x00, 0x0c, 0x03, 1, 0x00, 3, 0x12, 2, 0x31, 0x00, 0x3f, 0x00]);
    assert!(parse_sos(&mut reader, &mut decoder).is_ok());
    assert_eq!(decoder.num_scans, 3);
    assert_eq!(&decoder.z_order[..3], &[0, 2, 1]);
    assert_eq!((decoder.components[2].dc_huff_table, decoder.components[2].ac_huff_table), (1, 2));
    assert_eq!((decoder.components[1].dc_huff_table, decoder.components[1].ac_huff_table), (3, 1));
    assert_eq!(reader.position(), 12);
    // the last entry naming a component sets its tables
    let mut decoder = three_component_decoder();
    let mut reader = ByteReader::from_slice(&[0x00, 0x0a, 0x02, 2, 0x11, 2, 0x23, 0x00, 0x3f, 0x00]);
    assert!(parse_sos(&mut reader, &mut decoder).is_ok());
    assert_eq!((decoder.components[1].dc_huff_table, decoder.components[1].ac_huff_table), (2, 3));
    assert_eq!(&decoder.z_order[..2], &[1, 1]);
}

#[test]
fn scan_header_refused() {
    // an identifier no component has
    let mut decoder = three_component_decoder();
    let mut reader = ByteReader::from_slice(&[0x00, 0x08, 0x01, 7, 0x00, 0x00, 0x3f, 0x00]);
    assert!(matches!(parse_sos(&mut reader, &mut decoder), Err(DecodeErrors::SosError(_))));
    // entries cut short
    let mut decoder = three_component_decoder();
    let mut reader = ByteReader::from_slice(&[0x00, 0x0a, 0x02, 1, 0x00]);
    assert!(matches!(parse_sos(&mut reader, &mut decoder), Err(DecodeErrors::Format(_))));
    // a spectral selection that ends before it starts
    let mut decoder = three_component_decoder();
    decoder.info.sof = SOFMarkers::ProgressiveDctHuffman;
    let mut reader = ByteReader::from_slice(&[0x00, 0x08, 0x01, 1, 0x00, 0x05, 0x01, 0x00]);
    assert!(matches!(parse_sos(&mut reader, &mut decoder), Err(DecodeErrors::SosError(_))));
    // a progressive scan keeps its parameters
    let mut decoder = three_component_decoder();
    decoder.info.sof = SOFMarkers::ProgressiveDctHuffman;
    let mut reader = ByteReader::from_slice(&[0x00, 0x08, 0x01, 1, 0x00, 0x01, 0x05, 0x21]);
    assert!(parse_sos(&mut reader, &mut decoder).is_ok());
    assert_eq!((decoder.spec_start, decoder.spec_end), (1, 5));
    assert_eq!((decoder.succ_high, decoder.succ_low), (2, 1));
}

#[test]
fn ac_coefficients_follow_the_codes() {
    // DC: one code `0`, category zero. AC: codes `00` end of block, `01` a
    // coefficient of one magnitude bit, `10` a zero then two magnitude bits.
    let mut dc_counts = [0u8; 16];
    dc_counts[0] = 1;
    let dc = HuffmanTable::new(&dc_counts, vec![0], false).unwrap();
    let mut ac_counts = [0u8; 16];
    ac_counts[1] = 3;
    let ac = HuffmanTable::new(&ac_counts, vec![0x00, 0x01, 0x12], true).unwrap();
    // 0 | 01 1 | 10 00 | 00, then ones
    let mut reader = ByteReader::from_slice(&[0b0011_1000, 0b0011_1111]);
    let mut stream = BitStream::new();
    let mut block = [0i16; 64];
    let mut pred = 5;
    assert!(stream.decode_mcu_block(&mut reader, &dc, &ac, &mut block, &mut pred));
    assert_eq!(pred, 5);
    assert_eq!(block[0], 5);
    assert_eq!(block[UN_ZIGZAG[1]], 1);
    assert_eq!(block[UN_ZIGZAG[3]], -3);
    let others = (0..64).filter(|i| ![0, UN_ZIGZAG[1], UN_ZIGZAG[3]].contains(i));
    assert!(others.map(|i| block[i]).all(|v| v == 0));
}

#[test]
fn markers_are_found_past_fill_bytes() {
    let mut reader = ByteReader::from_slice(&[0x12, 0xff, 0x00, 0xff, 0xff, 0xd3, 0x55]);
    let mut stream = BitStream::new();
    assert!(matches!(get_marker(&mut reader, &mut stream), Some(Marker::RST(3))));
    assert_eq!(reader.position(), 6);
    let mut reader = ByteReader::from_slice(&[0x12, 0xff, 0x00]);
    assert!(get_marker(&mut reader, &mut stream).is_none());
}

#[test]
fn restart_markers_zero_the_predictions() {
    let mut reader = ByteReader::from_slice(&[0xff, 0xd0, 0x00]);
    let mut stream = BitStream::new();
    let mut preds = vec![4, -2, 9];
    assert!(restart(&mut stream, &mut reader, &mut preds).is_ok());
    assert_eq!(preds, vec![0, 0, 0]);
    assert_eq!(stream.bits_left, 0);
    // any other marker in the entropy coded data is an error
    let mut reader = ByteReader::from_slice(&[0xff, 0xc4]);
    let mut preds = vec![4];
    assert!(matches!(
        restart(&mut stream, &mut reader, &mut preds),
        Err(DecodeErrors::MCUError(_))
    ));
    assert_eq!(preds, vec![4]);
}

#[test]
fn planes_kept_by_the_caller_give_the_same_pixels() {
    let g = make_geometry(8, 8, 1, 1, 1).ok().unwrap();
    let mut y = vec![0i16; 64];
    y[0] = 16;
    let qt = Aligned32([1i32; 64]);
    let owned = post_process(
        &g,
        y.clone(),
        Vec::new(),
        Vec::new(),
        &qt,
        &qt,
        &qt,
        ColorSpace::GRAYSCALE,
        ColorSpace::GRAYSCALE,
    );
    let kept = post_process_prog(
        &g,
        &y,
        &Vec::new(),
        &Vec::new(),
        &qt,
        &qt,
        &qt,
        ColorSpace::GRAYSCALE,
        ColorSpace::GRAYSCALE,
    );
    assert_eq!(owned, kept);
    assert!(owned.iter().all(|p| *p == 130));
    assert_eq!(y[0], 16);
}
