//! Decode Decoder markers/segments
//!
//! This file deals with decoding header information in a JPEG file: the
//! Huffman tables (DHT), the quantization tables (DQT), the frame header (SOF),
//! the scan header (SOS) and the application segments (APPn).
use vstd::prelude::*;

use crate::components::{spec_component_id, spec_is_sampling_factor, ComponentID, Components, UpSampler};
use crate::decoder::{Decoder, ImageInfo, MAX_COMPONENTS, MAX_DIMENSIONS};
use crate::errors::{message, message_with_number, DecodeErrors};
use crate::huffman::{first_index, lemma_first_index_nonneg, total_symbols, valid_counts, HuffmanTable};
use crate::marker::Marker;
use crate::misc::{
    lemma_un_zigzag_in_block, lemma_un_zigzag_injective, lemma_zigzag_inverse, read_byte,
    read_u16_be, spec_be16, spec_zigzag_of, Aligned32, ByteReader, ColorSpace, SOFMarkers,
    UN_ZIGZAG,
};

verus! {

/// The byte `k` places after the read position.
pub open spec fn at(r: ByteReader, k: int) -> u8 {
    r.bytes()[r.pos() + k]
}

/// The big-endian `u16` at `k` places after the read position.
pub open spec fn be16_at(r: ByteReader, k: int) -> u16 {
    spec_be16(at(r, k), at(r, k + 1))
}

/// What a header parser keeps: the data, and a well formed reader and
/// decoder.
pub open spec fn parse_step(d0: Decoder, d1: Decoder, r0: ByteReader, r1: ByteReader) -> bool {
    &&& d1.wf()
    &&& r1.wf()
    &&& r1.bytes() == r0.bytes()
    &&& r0.pos() <= r1.pos()
}

/// Read `n` bytes into a new vector, or fail with a format error when fewer
/// are left (the reader then stops at the end of the data).
fn read_exact(reader: &mut ByteReader, n: usize) -> (res: Result<Vec<u8>, DecodeErrors>)
    requires
        old(reader).wf(),
    ensures
        final(reader).wf(),
        final(reader).bytes() == old(reader).bytes(),
        old(reader).pos() <= final(reader).pos(),
        old(reader).remaining() >= n ==> res is Ok && final(reader).pos() == old(reader).pos() + n,
        old(reader).remaining() < n ==> (res matches Err(DecodeErrors::Format(_))),
        res matches Ok(v) ==> v@ == old(reader).bytes().subrange(
            old(reader).pos(),
            old(reader).pos() + n,
        ),
{
    if reader.len() - reader.position() < n {
        reader.consume(n);
        return Err(DecodeErrors::Format(message("Could not read bytes into the buffer")));
    }
    let mut v: Vec<u8> = Vec::new();
    let start = reader.position();
    let mut i: usize = 0;
    while i < n
        invariant
            reader.wf(),
            reader.bytes() == old(reader).bytes(),
            start == old(reader).pos(),
            start + n <= reader.bytes().len(),
            reader.pos() == start + i,
            i <= n,
            v@ == old(reader).bytes().subrange(start as int, start + i),
        decreases n - i,
    {
        let b = match reader.next_byte() {
            Some(b) => b,
            None => 0,
        };
        v.push(b);
        i += 1;
        assert(v@ =~= old(reader).bytes().subrange(start as int, start + i));
    }
    Ok(v)
}

/// A table of 64 values given in zig-zag order, in natural order.
pub open spec fn natural_order(vals: Seq<u8>) -> Seq<i32> {
    Seq::new(64, |n: int| vals[spec_zigzag_of(n)] as i32)
}

/// Reorder a quantization table from zig-zag order to natural order.
#[verifier::spinoff_prover]
pub fn un_zig_zag(a: &[u8]) -> (output: [i32; 64])
    requires
        a@.len() >= 64,
    ensures
        forall|i: int| 0 <= i < 64 ==> #[trigger] output[UN_ZIGZAG@[i] as int] == a@[i] as i32,
        output@ == natural_order(a@),
{
    proof {
        lemma_un_zigzag_in_block();
        lemma_un_zigzag_injective();
    }
    let mut output = [0i32; 64];
    let mut i: usize = 0;
    while i < 64
        invariant
            a@.len() >= 64,
            i <= 64,
            UN_ZIGZAG@.len() == 80,
            forall|k: int| 0 <= k < 80 ==> #[trigger] UN_ZIGZAG@[k] < 64,
            forall|k: int, j: int|
                0 <= k < 64 && 0 <= j < 64 && k != j ==> #[trigger] UN_ZIGZAG@[k] != #[trigger] UN_ZIGZAG@[j],
            forall|k: int| 0 <= k < i ==> #[trigger] output[UN_ZIGZAG@[k] as int] == a@[k] as i32,
        decreases 64 - i,
    {
        output[UN_ZIGZAG[i]] = a[i] as i32;
        i += 1;
    }
    proof {
        lemma_zigzag_inverse();
        assert forall|n: int| 0 <= n < 64 implies #[trigger] output@[n] == natural_order(a@)[n] by {
            let k = spec_zigzag_of(n);
            assert(output[UN_ZIGZAG@[k] as int] == a@[k] as i32);
        }
    }
    assert(output@ =~= natural_order(a@));
    output
}

/// The Huffman tables of a decoder: for each slot, the code counts and the
/// symbols of the table there.
pub open spec fn huffman_view(t: Seq<Option<HuffmanTable>>) -> Seq<Option<(Seq<u8>, Seq<u8>)>> {
    Seq::new(
        t.len(),
        |i: int|
            match t[i] {
                Some(h) => Some((h.spec_counts(), h.spec_values())),
                None => None,
            },
    )
}

/// The tables of a DHT segment from `pos` on, `read` of its `len` counted
/// so far, stored over the DC tables `dc` and the AC tables `ac`: the tables
/// and the position after the last one, or `Err(true)` for a table that
/// cannot be read or is no Huffman code (its counts cut short, more than 256
/// symbols, codes that do not fit their lengths) and `Err(false)` for data
/// that ends elsewhere.
pub open spec fn dht_tables(
    b: Seq<u8>,
    pos: int,
    read: int,
    len: int,
    dc: Seq<Option<(Seq<u8>, Seq<u8>)>>,
    ac: Seq<Option<(Seq<u8>, Seq<u8>)>>,
) -> Result<(Seq<Option<(Seq<u8>, Seq<u8>)>>, Seq<Option<(Seq<u8>, Seq<u8>)>>, int), bool>
    decreases (if read < len {
        len - read
    } else {
        0
    }),
{
    if read >= len {
        Ok((dc, ac, pos))
    } else if pos >= b.len() {
        Err(false)
    } else if pos + 17 > b.len() {
        Err(true)
    } else {
        let info = b[pos];
        let counts = b.subrange(pos + 1, pos + 17);
        let n = total_symbols(counts);
        if n > 256 {
            Err(true)
        } else if pos + 17 + n > b.len() {
            Err(false)
        } else if !valid_counts(counts) {
            Err(true)
        } else {
            let table = Some((counts, b.subrange(pos + 17, pos + 17 + n)));
            let slot = (info % 4) as int;
            proof {
                lemma_first_index_nonneg(counts, 17);
            }
            if (info / 16) % 2 == 0 {
                dht_tables(b, pos + 17 + n, read + 17 + n, len, dc.update(slot, table), ac)
            } else {
                dht_tables(b, pos + 17 + n, read + 17 + n, len, dc, ac.update(slot, table))
            }
        }
    }
}

/// A DHT segment at `pos`: its length (at least two, counting itself), then
/// its tables.
pub open spec fn dht_segment(
    b: Seq<u8>,
    pos: int,
    dc: Seq<Option<(Seq<u8>, Seq<u8>)>>,
    ac: Seq<Option<(Seq<u8>, Seq<u8>)>>,
) -> Result<(Seq<Option<(Seq<u8>, Seq<u8>)>>, Seq<Option<(Seq<u8>, Seq<u8>)>>, int), bool> {
    if pos + 2 > b.len() || spec_be16(b[pos], b[pos + 1]) < 2 {
        Err(true)
    } else {
        dht_tables(b, pos + 2, 0, spec_be16(b[pos], b[pos + 1]) - 2, dc, ac)
    }
}

/// **B.2.4.2 Huffman table-specification syntax**
///
/// Parse a DHT segment: after its length, tables follow, each made of a
/// class and index byte (the fourth bit tells AC from DC, the low two bits
/// give the slot), sixteen code counts and the symbol values. Each table is
/// stored in its slot. Only the Huffman tables of the decoder change.
pub fn parse_huffman(decoder: &mut Decoder, reader: &mut ByteReader) -> (res: Result<(), DecodeErrors>)
    requires
        old(decoder).wf(),
        old(reader).wf(),
    ensures
        parse_step(*old(decoder), *final(decoder), *old(reader), *final(reader)),
        *final(decoder) == (Decoder {
            dc_huffman_tables: final(decoder).dc_huffman_tables,
            ac_huffman_tables: final(decoder).ac_huffman_tables,
            ..*old(decoder)
        }),
        match dht_segment(
            old(reader).bytes(),
            old(reader).pos(),
            huffman_view(old(decoder).dc_huffman_tables@),
            huffman_view(old(decoder).ac_huffman_tables@),
        ) {
            Ok((dc, ac, end)) => {
                &&& res is Ok
                &&& huffman_view(final(decoder).dc_huffman_tables@) == dc
                &&& huffman_view(final(decoder).ac_huffman_tables@) == ac
                &&& final(reader).pos() == end
            },
            Err(refused) => if refused {
                res matches Err(DecodeErrors::HuffmanDecode(_))
            } else {
                res matches Err(DecodeErrors::Format(_))
            },
        },
        res is Ok ==> final(reader).pos() >= old(reader).pos() + 2,
{
    let ghost b = old(reader).bytes();
    let ghost whole = dht_segment(
        b,
        old(reader).pos(),
        huffman_view(old(decoder).dc_huffman_tables@),
        huffman_view(old(decoder).ac_huffman_tables@),
    );
    // Read the length of the Huffman table
    let dht_length = match read_u16_be(reader) {
        Ok(v) => v,
        Err(_) => {
            return Err(
                DecodeErrors::HuffmanDecode(message("Could not read Huffman length from image")),
            );
        },
    };
    if dht_length < 2 {
        return Err(DecodeErrors::HuffmanDecode(message("Huffman table length below two")));
    }
    let dht_length = (dht_length - 2) as u32;
    // how much have we read
    let mut length_read: u32 = 0;
    // A single DHT marker may contain multiple Huffman Tables.
    while length_read < dht_length
        invariant
            parse_step(*old(decoder), *decoder, *old(reader), *reader),
            *decoder == (Decoder {
                dc_huffman_tables: decoder.dc_huffman_tables,
                ac_huffman_tables: decoder.ac_huffman_tables,
                ..*old(decoder)
            }),
            b == old(reader).bytes(),
            whole == dht_segment(
                b,
                old(reader).pos(),
                huffman_view(old(decoder).dc_huffman_tables@),
                huffman_view(old(decoder).ac_huffman_tables@),
            ),
            dht_length < 0x10000,
            length_read < dht_length + 300,
            reader.pos() >= old(reader).pos() + 2,
            dht_tables(
                b,
                reader.pos(),
                length_read as int,
                dht_length as int,
                huffman_view(decoder.dc_huffman_tables@),
                huffman_view(decoder.ac_huffman_tables@),
            ) == whole,
        decreases dht_length + 300 - length_read,
    {
        let ghost pos = reader.pos();
        let ghost dc0 = huffman_view(decoder.dc_huffman_tables@);
        let ghost ac0 = huffman_view(decoder.ac_huffman_tables@);
        // HT information
        let ht_info = match read_byte(reader) {
            Ok(v) => v,
            Err(_) => {
                return Err(DecodeErrors::Format(message("No more bytes")));
            },
        };
        assert(ht_info == b[pos]);
        // the fifth bit indicates whether the huffman encoding is DC or AC type
        let dc_or_ac = (ht_info >> 4) & 0x01;
        // Indicate the position of this table, should be less than 4;
        let index = (ht_info & 3) as usize;
        assert(ht_info & 3 < 4 && ht_info & 3 == ht_info % 4 && (ht_info >> 4) & 0x01 == (ht_info / 16)
            % 2) by (bit_vector);
        // read the number of symbols
        let counts = match read_exact(reader, 16) {
            Ok(v) => v,
            Err(_) => {
                return Err(
                    DecodeErrors::HuffmanDecode(message("Could not read bytes into the buffer")),
                );
            },
        };
        let num_symbols: [u8; 16] = [
            counts[0],
            counts[1],
            counts[2],
            counts[3],
            counts[4],
            counts[5],
            counts[6],
            counts[7],
            counts[8],
            counts[9],
            counts[10],
            counts[11],
            counts[12],
            counts[13],
            counts[14],
            counts[15],
        ];
        assert(num_symbols@ =~= b.subrange(pos + 1, pos + 17));
        let mut symbols_sum: u32 = 0;
        let mut k: usize = 0;
        while k < 16
            invariant
                k <= 16,
                symbols_sum <= 255 * k,
                symbols_sum == first_index(num_symbols@, k + 1),
            decreases 16 - k,
        {
            symbols_sum = symbols_sum + num_symbols[k] as u32;
            k += 1;
        }
        assert(symbols_sum == total_symbols(num_symbols@));
        // The sum of the number of symbols cannot be greater than 256;
        if symbols_sum > 256 {
            return Err(
                DecodeErrors::HuffmanDecode(
                    message("Encountered Huffman table with excessive length in DHT"),
                ),
            );
        }
        // A table containing symbols in increasing code length
        let symbols = match read_exact(reader, symbols_sum as usize) {
            Ok(v) => v,
            Err(e) => {
                return Err(e);
            },
        };
        length_read = length_read + 17 + symbols_sum;
        let ghost entry = Some((num_symbols@, symbols@));
        // store
        if dc_or_ac == 0 {
            let table = match HuffmanTable::new(&num_symbols, symbols, false) {
                Ok(t) => t,
                Err(e) => {
                    return Err(e);
                },
            };
            decoder.dc_huffman_tables.set(index, Some(table));
            assert(huffman_view(decoder.dc_huffman_tables@) =~= dc0.update(index as int, entry));
        } else {
            let table = match HuffmanTable::new(&num_symbols, symbols, true) {
                Ok(t) => t,
                Err(e) => {
                    return Err(e);
                },
            };
            decoder.ac_huffman_tables.set(index, Some(table));
            assert(huffman_view(decoder.ac_huffman_tables@) =~= ac0.update(index as int, entry));
        }
    }
    Ok(())
}

/// The quantization tables of a decoder, each in natural order.
pub open spec fn qt_view(t: [Option<[i32; 64]>; MAX_COMPONENTS]) -> Seq<Option<Seq<i32>>> {
    Seq::new(
        MAX_COMPONENTS as nat,
        |i: int|
            match t@[i] {
                Some(a) => Some(a@),
                None => None,
            },
    )
}

/// The tables of a DQT segment from `pos` on, `read` of its `len` counted
/// so far, stored over the tables `t`: the tables and the position after the
/// last one, or `Err(true)` for a table the decoder refuses (a precision
/// other than 8 bits, a slot past the fourth) and
/// `Err(false)` for data that ends within a table.
pub open spec fn dqt_tables(
    b: Seq<u8>,
    pos: int,
    read: int,
    len: int,
    t: Seq<Option<Seq<i32>>>,
) -> Result<(Seq<Option<Seq<i32>>>, int), bool>
    decreases (if read < len {
        len - read
    } else {
        0
    }),
{
    if read >= len {
        Ok((t, pos))
    } else if pos >= b.len() {
        Err(false)
    } else {
        let info = b[pos];
        if info / 16 != 0 {
            Err(true)
        } else if pos + 65 > b.len() {
            Err(false)
        } else if info % 16 >= MAX_COMPONENTS {
            Err(true)
        } else {
            dqt_tables(
                b,
                pos + 65,
                read + 71,
                len,
                t.update((info % 16) as int, Some(natural_order(b.subrange(pos + 1, pos + 65)))),
            )
        }
    }
}

/// A DQT segment at `pos`: its length, then its tables.
pub open spec fn dqt_segment(b: Seq<u8>, pos: int, t: Seq<Option<Seq<i32>>>) -> Result<
    (Seq<Option<Seq<i32>>>, int),
    bool,
> {
    if pos + 2 > b.len() {
        Err(false)
    } else {
        dqt_tables(b, pos + 2, 0, spec_be16(b[pos], b[pos + 1]) as int, t)
    }
}

/// **B.2.4.1 Quantization table-specification syntax**
///
/// Parse a DQT segment: tables follow its length, each made of a precision
/// and slot byte and 64 values in zig-zag order. Only 8 bit tables in slots
/// 0 to 3 are accepted. Only the quantization tables of the decoder change.
pub fn parse_dqt(decoder: &mut Decoder, reader: &mut ByteReader) -> (res: Result<(), DecodeErrors>)
    requires
        old(decoder).wf(),
        old(reader).wf(),
    ensures
        parse_step(*old(decoder), *final(decoder), *old(reader), *final(reader)),
        *final(decoder) == (Decoder { qt_tables: final(decoder).qt_tables, ..*old(decoder) }),
        match dqt_segment(old(reader).bytes(), old(reader).pos(), qt_view(old(decoder).qt_tables)) {
            Ok((t, end)) => res is Ok && qt_view(final(decoder).qt_tables) == t && final(reader).pos()
                == end,
            Err(refused) => if refused {
                res matches Err(DecodeErrors::DqtError(_))
            } else {
                res matches Err(DecodeErrors::Format(_))
            },
        },
{
    let ghost b = old(reader).bytes();
    let ghost whole = dqt_segment(b, old(reader).pos(), qt_view(old(decoder).qt_tables));
    // read length
    let qt_length = match read_u16_be(reader) {
        Ok(v) => v,
        Err(_) => {
            return Err(DecodeErrors::Format(message("Could not read DQT length")));
        },
    };
    let mut length_read: u32 = 0;
    // A single DQT header may have multiple QT's
    while (qt_length as u32) > length_read
        invariant
            parse_step(*old(decoder), *decoder, *old(reader), *reader),
            *decoder == (Decoder { qt_tables: decoder.qt_tables, ..*old(decoder) }),
            b == old(reader).bytes(),
            whole == dqt_segment(b, old(reader).pos(), qt_view(old(decoder).qt_tables)),
            length_read < qt_length + 100,
            dqt_tables(b, reader.pos(), length_read as int, qt_length as int, qt_view(decoder.qt_tables))
                == whole,
        decreases qt_length + 100 - length_read,
    {
        let ghost pos = reader.pos();
        let ghost tables = qt_view(decoder.qt_tables);
        let qt_info = match read_byte(reader) {
            Ok(v) => v,
            Err(_) => {
                return Err(DecodeErrors::Format(message("No more bytes")));
            },
        };
        assert(qt_info == b[pos]);
        assert(qt_info >> 4 == qt_info / 16 && qt_info & 0x0f == qt_info % 16) by (bit_vector);
        // 0 = 8 bit otherwise 16 bit dqt
        let precision = (qt_info >> 4) as usize;
        // last 4 bits give us position
        let table_position = (qt_info & 0x0f) as usize;
        if precision == 0 {
            let qt_values = match read_exact(reader, 64) {
                Ok(v) => v,
                Err(e) => {
                    return Err(e);
                },
            };
            length_read = length_read + 7 + 64;
            if table_position >= MAX_COMPONENTS {
                return Err(
                    DecodeErrors::DqtError(
                        message_with_number(
                            "Quantization table position should be below 4, found ",
                            table_position as u64,
                        ),
                    ),
                );
            }
            // carry out un zig-zag here
            let dct_table = un_zig_zag(qt_values.as_slice());
            decoder.qt_tables[table_position] = Some(dct_table);
            assert(qt_view(decoder.qt_tables) =~= tables.update(
                table_position as int,
                Some(natural_order(b.subrange(pos + 1, pos + 65))),
            ));
        } else if precision == 1 {
            // 16 bit quantization tables
            return Err(
                DecodeErrors::DqtError(
                    message("Support for 16 bit quantization table is not complete"),
                ),
            );
        } else {
            return Err(
                DecodeErrors::DqtError(
                    message_with_number(
                        "Expected QT precision value of either 0 or 1, found ",
                        precision as u64,
                    ),
                ),
            );
        }
    }
    Ok(())
}

/// The fields a frame header sets.
pub open spec fn frame_update(d0: Decoder, d1: Decoder) -> bool {
    d1 == (Decoder {
        info: d1.info,
        components: d1.components,
        h_max: d1.h_max,
        v_max: d1.v_max,
        mcu_width: d1.mcu_width,
        mcu_height: d1.mcu_height,
        mcu_x: d1.mcu_x,
        mcu_y: d1.mcu_y,
        interleaved: d1.interleaved,
        qt_tables: d1.qt_tables,
        num_scans: d1.num_scans,
        ..d0
    })
}

/// `ceil(a / b)`.
pub open spec fn ceil_div(a: int, b: int) -> int {
    (a + b - 1) / b
}

/// The three bytes of the record of component `i` in a frame header read
/// from `r`: identifier, sampling factors and quantization table slot.
pub open spec fn sof_record(r: ByteReader, i: int) -> (u8, u8, u8) {
    component_record(r.bytes(), r.pos() + 8, i)
}

/// The three bytes of the record of component `i` in records that start at
/// `base`.
pub open spec fn component_record(b: Seq<u8>, base: int, i: int) -> (u8, u8, u8) {
    (b[base + 3 * i], b[base + 3 * i + 1], b[base + 3 * i + 2])
}

/// A component record the decoder accepts: a known identifier, a table slot
/// below four and sampling factors that are powers of two.
pub open spec fn record_valid(a: (u8, u8, u8)) -> bool {
    &&& spec_component_id(a.0) is Some
    &&& a.2 < MAX_COMPONENTS
    &&& spec_is_sampling_factor((a.1 / 16) as int)
    &&& spec_is_sampling_factor((a.1 % 16) as int)
}

/// `c` is the component a record describes, before its quantization table
/// is filled in.
pub open spec fn from_record(a: (u8, u8, u8), c: Components) -> bool {
    &&& Some(c.component_id) == spec_component_id(a.0)
    &&& c.horizontal_sample == a.1 / 16
    &&& c.vertical_sample == a.1 % 16
    &&& c.quantization_table_number == a.2
    &&& c.dc_huff_table == 0
    &&& c.ac_huff_table == 0
    &&& c.dc_pred == 0
    &&& c.up_sampler == UpSampler::NoOp
    &&& c.width_stride == c.horizontal_sample
    &&& c.id == a.0
}

/// The fixed part of a frame header read from `r` is one the decoder
/// accepts: 8 bit samples, a size that is not zero and fits the limit, and a
/// length that matches the number of components.
pub open spec fn sof_header_ok(r: ByteReader) -> bool {
    &&& r.remaining() >= 8
    &&& at(r, 2) == 8
    &&& be16_at(r, 3) * be16_at(r, 5) <= MAX_DIMENSIONS
    &&& be16_at(r, 3) != 0
    &&& be16_at(r, 5) != 0
    &&& be16_at(r, 0) == 8 + 3 * at(r, 7)
}

/// Read the records of `n` components of a frame header.
fn read_components(reader: &mut ByteReader, n: u8) -> (res: Result<Vec<Components>, DecodeErrors>)
    requires
        old(reader).wf(),
    ensures
        final(reader).wf(),
        final(reader).bytes() == old(reader).bytes(),
        old(reader).pos() <= final(reader).pos(),
        res is Ok <==> (old(reader).remaining() >= 3 * n && forall|i: int|
            0 <= i < n ==> record_valid(
                #[trigger] component_record(old(reader).bytes(), old(reader).pos(), i),
            )),
        res is Err ==> (res matches Err(DecodeErrors::Format(_))),
        res matches Ok(v) ==> {
            &&& v@.len() == n
            &&& final(reader).pos() == old(reader).pos() + 3 * n
            &&& forall|i: int|
                #![trigger v@[i]]
                0 <= i < n ==> v@[i].wf() && from_record(
                    component_record(old(reader).bytes(), old(reader).pos(), i),
                    v@[i],
                )
        },
{
    let ghost b = old(reader).bytes();
    let ghost p0 = old(reader).pos();
    let mut components: Vec<Components> = Vec::new();
    let mut k: u8 = 0;
    while k < n
        invariant
            reader.wf(),
            reader.bytes() == b,
            b == old(reader).bytes(),
            p0 == old(reader).pos(),
            k <= n,
            components@.len() == k,
            reader.pos() == p0 + 3 * k,
            forall|i: int|
                #![trigger components@[i]]
                0 <= i < k ==> record_valid(component_record(b, p0, i)) && components@[i].wf()
                    && from_record(component_record(b, p0, i), components@[i]),
            forall|i: int| 0 <= i < k ==> record_valid(#[trigger] component_record(b, p0, i)),
        decreases n - k,
    {
        // read 3 bytes for each component
        let temp = match read_exact(reader, 3) {
            Ok(v) => v,
            Err(_) => {
                return Err(DecodeErrors::Format(message("Could not read component data")));
            },
        };
        let ghost rec = component_record(b, p0, k as int);
        assert(temp@[0] == rec.0 && temp@[1] == rec.1 && temp@[2] == rec.2);
        // create a component.
        let component = match Components::from([temp[0], temp[1], temp[2]]) {
            Ok(c) => c,
            Err(e) => {
                assert(!record_valid(rec));
                return Err(e);
            },
        };
        let ghost before = components@;
        components.push(component);
        assert forall|i: int| #![trigger components@[i]] 0 <= i < k + 1 implies record_valid(component_record(b, p0, i))
            && components@[i].wf() && from_record(component_record(b, p0, i), components@[i]) by {
            if i < k {
                assert(components@[i] == before[i]);
            }
        }
        k += 1;
    }
    Ok(components)
}

/// What reading a frame header of kind `sof` from `r` makes of the decoder
/// `d0`: the image size and kind, the components of the records with their
/// quantization tables, the largest sampling factors, the MCU counts and
/// whether the image is interleaved; the quantization tables are taken.
pub open spec fn frame_read(d0: Decoder, r: ByteReader, sof: SOFMarkers, d1: Decoder) -> bool {
        &&& r.remaining() >= 8
        &&& d1.info == (ImageInfo {
            width: be16_at(r, 5),
            height: be16_at(r, 3),
            pixel_density: 8,
            sof,
            components: at(r, 7),
            ..d0.info
        })
        &&& d1.info.width > 0
        &&& d1.info.height > 0
        &&& d1.info.height * d1.info.width <= MAX_DIMENSIONS
        &&& d1.components@.len() == at(r, 7)
        &&& d1.components@.len() > 0 ==> {
            &&& d1.mcu_width == 8 * d1.h_max
            &&& d1.mcu_height == 8 * d1.v_max
            &&& d1.mcu_x == ceil_div(
                d1.info.width as int,
                d1.mcu_width as int,
            )
            &&& d1.mcu_y == ceil_div(
                d1.info.height as int,
                d1.mcu_height as int,
            )
        }
        &&& forall|i: int|
            0 <= i < d1.components@.len() ==> #[trigger] d1.components@[i].horizontal_sample <= d1.h_max
                && d1.components@[i].vertical_sample <= d1.v_max
        &&& forall|i: int| 0 <= i < MAX_COMPONENTS ==> #[trigger] d1.qt_tables[i] is None
        &&& forall|i: int|
            0 <= i < d1.components@.len() ==> {
                let a = sof_record(r, i);
                let c = #[trigger] d1.components@[i];
                &&& from_record(a, c)
                &&& d0.qt_tables[a.2 as int] == Some(c.quantization_table.0)
            }
        &&& d1.h_max >= d0.h_max
        &&& d1.v_max >= d0.v_max
        &&& d1.num_scans == 0
        &&& d1.interleaved == (d0.interleaved || (d1.components@.len()
            > 0 && (d1.h_max != 1 || d1.v_max != 1)))
        &&& (d1.h_max == d0.h_max || exists|i: int|
            0 <= i < d1.components@.len() && d1.h_max
                == #[trigger] d1.components@[i].horizontal_sample)
        &&& (d1.v_max == d0.v_max || exists|i: int|
            0 <= i < d1.components@.len() && d1.v_max
                == #[trigger] d1.components@[i].vertical_sample)
}

/// Section:`B.2.2 Frame header syntax`
///
/// Reads the frame length, the sample precision (only 8 bits are
/// supported), the height and width, the number of components and a record
/// of three bytes per component. The quantization tables the components name
/// move into the components; the decoder's slots are emptied.
#[verifier::spinoff_prover]
#[verifier::rlimit(60)]
pub fn parse_start_of_frame(
    reader: &mut ByteReader,
    sof: SOFMarkers,
    decoder: &mut Decoder,
) -> (res: Result<(), DecodeErrors>)
    requires
        old(decoder).wf(),
        old(reader).wf(),
    ensures
        parse_step(*old(decoder), *final(decoder), *old(reader), *final(reader)),
        frame_update(*old(decoder), *final(decoder)),
        old(reader).remaining() < 3 ==> (res matches Err(DecodeErrors::Format(_))),
        old(reader).remaining() >= 3 && at(*old(reader), 2) != 8 ==> (res matches Err(
            DecodeErrors::SofError(_),
        )),
        old(reader).remaining() >= 3 && at(*old(reader), 2) == 8 && old(reader).remaining() < 7
            ==> (res matches Err(DecodeErrors::Format(_))),
        old(reader).remaining() >= 7 && at(*old(reader), 2) == 8 && be16_at(*old(reader), 3)
            * be16_at(*old(reader), 5) > MAX_DIMENSIONS ==> res == Err::<(), DecodeErrors>(
            DecodeErrors::LargeDimensions(
                (be16_at(*old(reader), 3) * be16_at(*old(reader), 5)) as usize,
            ),
        ),
        old(reader).remaining() >= 7 && at(*old(reader), 2) == 8 && be16_at(*old(reader), 3)
            * be16_at(*old(reader), 5) <= MAX_DIMENSIONS && (be16_at(*old(reader), 3) == 0
            || be16_at(*old(reader), 5) == 0) ==> res == Err::<(), DecodeErrors>(
            DecodeErrors::ZeroError,
        ),
        old(reader).remaining() >= 8 && at(*old(reader), 2) == 8 && be16_at(*old(reader), 3)
            * be16_at(*old(reader), 5) <= MAX_DIMENSIONS && be16_at(*old(reader), 3) != 0
            && be16_at(*old(reader), 5) != 0 && be16_at(*old(reader), 0) != 8 + 3 * at(
            *old(reader),
            7,
        ) ==> (res matches Err(DecodeErrors::SofError(_))),
        res is Ok ==> frame_read(*old(decoder), *old(reader), sof, *final(decoder)),
        res is Ok ==> final(reader).pos() == old(reader).pos() + 8 + 3 * at(*old(reader), 7),
        sof_header_ok(*old(reader)) ==> (res is Ok <==> {
            &&& old(reader).remaining() >= 8 + 3 * at(*old(reader), 7)
            &&& forall|i: int|
                0 <= i < at(*old(reader), 7) ==> record_valid(#[trigger] sof_record(*old(reader), i))
                    && old(decoder).qt_tables[sof_record(*old(reader), i).2 as int] is Some
        }),
        sof_header_ok(*old(reader)) && (old(reader).remaining() < 8 + 3 * at(*old(reader), 7) || exists|i: int|
            0 <= i < at(*old(reader), 7) && !record_valid(#[trigger] sof_record(*old(reader), i))) ==> (res matches Err(
            DecodeErrors::Format(_),
        )),
{
    // Get length of the frame header
    let length = match read_u16_be(reader) {
        Ok(v) => v,
        Err(_) => {
            return Err(DecodeErrors::Format(message("Cannot read SOF length, exhausted data")));
        },
    };
    // usually 8, but can be 12 and 16, we currently support only 8
    let dt_precision = read_byte(reader)?;
    if dt_precision != 8 {
        return Err(
            DecodeErrors::SofError(
                message_with_number(
                    "The library can only parse 8-bit images, the image has bits of precision: ",
                    dt_precision as u64,
                ),
            ),
        );
    }
    decoder.info.set_density(dt_precision);
    // read and set the image height.
    let img_height = match read_u16_be(reader) {
        Ok(v) => v,
        Err(_) => {
            return Err(DecodeErrors::Format(message("Cannot read image height, exhausted data")));
        },
    };
    decoder.info.set_height(img_height);
    // read and set the image width
    let img_width = match read_u16_be(reader) {
        Ok(v) => v,
        Err(_) => {
            return Err(DecodeErrors::Format(message("Cannot read image width, exhausted data")));
        },
    };
    decoder.info.set_width(img_width);
    assert(img_height as int * img_width as int <= 65535 * 65535) by (nonlinear_arith)
        requires
            img_width <= 65535,
            img_height <= 65535,
    ;
    let dimensions = (img_height as usize) * (img_width as usize);
    if dimensions > MAX_DIMENSIONS {
        return Err(DecodeErrors::LargeDimensions(dimensions));
    }
    // Check image width or height is zero
    if img_width == 0 || img_height == 0 {
        return Err(DecodeErrors::ZeroError);
    }
    // Number of components for the image.
    let num_components = read_byte(reader)?;
    // length should be equal to num components
    if length as u32 != 8 + 3 * (num_components as u32) {
        return Err(
            DecodeErrors::SofError(
                message_with_number(
                    "Length of start of frame differs from expected, value is ",
                    length as u64,
                ),
            ),
        );
    }
    // set number of components
    decoder.info.components = num_components;
    let ghost p8 = reader.pos();
    assert(p8 == old(reader).pos() + 8);
    let mut components = match read_components(reader, num_components) {
        Ok(v) => v,
        Err(e) => {
            proof {
                if old(reader).remaining() >= 8 + 3 * num_components {
                    let i = choose|i: int|
                        0 <= i < num_components && !record_valid(
                            component_record(old(reader).bytes(), p8, i),
                        );
                    assert(sof_record(*old(reader), i) == component_record(old(reader).bytes(), p8, i));
                }
            }
            return Err(e);
        },
    };
    decoder.info.set_sof_marker(sof);
    let w = img_width as usize;
    let h = img_height as usize;
    let mut i: usize = 0;
    while i < components.len()
        invariant
            parse_step(*old(decoder), *decoder, *old(reader), *reader),
            frame_update(*old(decoder), *decoder),
            decoder.info == (ImageInfo {
                width: img_width,
                height: img_height,
                pixel_density: 8,
                sof,
                components: num_components,
                ..old(decoder).info
            }),
            decoder.components == old(decoder).components,
            decoder.qt_tables == old(decoder).qt_tables,
            w == img_width,
            h == img_height,
            old(reader).remaining() >= 8,
            at(*old(reader), 2) == 8,
            length == be16_at(*old(reader), 0),
            img_height == be16_at(*old(reader), 3),
            img_width == be16_at(*old(reader), 5),
            num_components == at(*old(reader), 7),
            length == 8 + 3 * num_components,
            img_height * img_width <= MAX_DIMENSIONS,
            img_height != 0 && img_width != 0,
            0 < w <= 65535,
            0 < h <= 65535,
            components@.len() == num_components,
            i <= components@.len(),
            forall|j: int| 0 <= j < components@.len() ==> #[trigger] components@[j].wf(),
            reader.pos() == old(reader).pos() + 8 + 3 * num_components,
            decoder.h_max >= old(decoder).h_max,
            decoder.v_max >= old(decoder).v_max,
            decoder.interleaved == (old(decoder).interleaved || (i > 0 && (decoder.h_max != 1 || decoder.v_max
                != 1))),
            decoder.h_max == old(decoder).h_max || exists|j: int|
                0 <= j < i && decoder.h_max == #[trigger] components@[j].horizontal_sample,
            decoder.v_max == old(decoder).v_max || exists|j: int|
                0 <= j < i && decoder.v_max == #[trigger] components@[j].vertical_sample,
            forall|j: int|
                0 <= j < components@.len() ==> record_valid(#[trigger] sof_record(*old(reader), j)) && from_record(
                    sof_record(*old(reader), j),
                    components@[j],
                ),
            forall|j: int|
                0 <= j < i ==> old(decoder).qt_tables[#[trigger] sof_record(*old(reader), j).2 as int]
                    == Some(components@[j].quantization_table.0),
            forall|j: int|
                0 <= j < i ==> #[trigger] components@[j].horizontal_sample <= decoder.h_max
                    && components@[j].vertical_sample <= decoder.v_max,
            i > 0 ==> {
                &&& decoder.mcu_width == 8 * decoder.h_max
                &&& decoder.mcu_height == 8 * decoder.v_max
                &&& decoder.mcu_x == ceil_div(w as int, decoder.mcu_width as int)
                &&& decoder.mcu_y == ceil_div(h as int, decoder.mcu_height as int)
            },
        decreases components@.len() - i,
    {
        let mut component = components[i];
        assert(component.wf());
        let ghost h0 = decoder.h_max;
        let ghost v0 = decoder.v_max;
        let ghost before = components@;
        assert(forall|j: int| 0 <= j < i ==> #[trigger] before[j].horizontal_sample <= h0 && before[j].vertical_sample <= v0);
        // h_max contains the maximum horizontal component
        if component.horizontal_sample > decoder.h_max {
            decoder.h_max = component.horizontal_sample;
        }
        // v_max contains the maximum vertical component
        if component.vertical_sample > decoder.v_max {
            decoder.v_max = component.vertical_sample;
        }
        decoder.mcu_width = decoder.h_max * 8;
        decoder.mcu_height = decoder.v_max * 8;
        // Number of MCU's per width
        decoder.mcu_x = (w + decoder.mcu_width - 1) / decoder.mcu_width;
        // Number of MCU's per height
        decoder.mcu_y = (h + decoder.mcu_height - 1) / decoder.mcu_height;
        if decoder.h_max != 1 || decoder.v_max != 1 {
            // interleaved images have horizontal and vertical sampling factors
            // not equal to 1.
            decoder.interleaved = true;
        }
        // Extract quantization tables from the arrays into components
        let qtn = component.quantization_table_number as usize;
        assert(sof_record(*old(reader), i as int).2 == qtn);
        if qtn >= MAX_COMPONENTS {
            return Err(DecodeErrors::DqtError(message("Quantization table number too large")));
        }
        let qt_table = match decoder.qt_tables[qtn] {
            Some(t) => t,
            None => {
                return Err(
                    DecodeErrors::DqtError(
                        message_with_number(
                            "No quantization table for component ",
                            component.id as u64,
                        ),
                    ),
                );
            },
        };
        assert(h0 <= decoder.h_max && v0 <= decoder.v_max);
        assert(component.horizontal_sample <= decoder.h_max && component.vertical_sample <= decoder.v_max);
        component.quantization_table = Aligned32(qt_table);
        components.set(i, component);
        assert forall|j: int|
            0 <= j < components@.len() implies record_valid(#[trigger] sof_record(*old(reader), j))
            && from_record(sof_record(*old(reader), j), components@[j]) by {
            if j != i {
                assert(components@[j] == before[j]);
            }
        }
        assert forall|j: int|
            0 <= j < i + 1 implies old(decoder).qt_tables[#[trigger] sof_record(*old(reader), j).2 as int]
            == Some(components@[j].quantization_table.0) by {
            if j < i {
                assert(components@[j] == before[j]);
            }
        }
        assert(decoder.h_max == old(decoder).h_max || exists|j: int|
            0 <= j < i + 1 && decoder.h_max == #[trigger] components@[j].horizontal_sample) by {
            if decoder.h_max != h0 {
                assert(decoder.h_max == components@[i as int].horizontal_sample);
            } else if h0 != old(decoder).h_max {
                let j0 = choose|j: int| 0 <= j < i && h0 == #[trigger] before[j].horizontal_sample;
                assert(components@[j0] == before[j0]);
            }
        }
        assert(decoder.v_max == old(decoder).v_max || exists|j: int|
            0 <= j < i + 1 && decoder.v_max == #[trigger] components@[j].vertical_sample) by {
            if decoder.v_max != v0 {
                assert(decoder.v_max == components@[i as int].vertical_sample);
            } else if v0 != old(decoder).v_max {
                let j0 = choose|j: int| 0 <= j < i && v0 == #[trigger] before[j].vertical_sample;
                assert(components@[j0] == before[j0]);
            }
        }
        assert forall|j: int| 0 <= j < i + 1 implies #[trigger] components@[j].horizontal_sample
            <= decoder.h_max && components@[j].vertical_sample <= decoder.v_max by {
            if j < i {
                assert(components@[j] == before[j]);
                assert(before[j].horizontal_sample <= h0 && before[j].vertical_sample <= v0);
            } else {
                assert(components@[j] == component);
            }
        }
        i += 1;
    }
    assert(i == components@.len());
    assert(forall|j: int|
        0 <= j < components@.len() ==> #[trigger] components@[j].horizontal_sample <= decoder.h_max
            && components@[j].vertical_sample <= decoder.v_max);
    let ghost hm = decoder.h_max;
    let ghost vm = decoder.v_max;
    let ghost comps = components@;
    // delete quantization tables, we'll extract them from the components when
    // needed
    decoder.qt_tables = [None, None, None, None];
    decoder.components = components;
    decoder.num_scans = 0;
    assert(decoder.h_max == hm && decoder.v_max == vm && decoder.components@ == comps);
    assert(forall|i: int| 0 <= i < MAX_COMPONENTS ==> #[trigger] decoder.qt_tables[i] is None);
    assert(decoder.components@.len() == at(*old(reader), 7));
    assert(forall|i: int|
        0 <= i < decoder.components@.len() ==> #[trigger] decoder.components@[i].horizontal_sample
            <= decoder.h_max && decoder.components@[i].vertical_sample <= decoder.v_max);
    assert(decoder.info.height * decoder.info.width <= MAX_DIMENSIONS);
    Ok(())
}

/// The fields a scan header sets.
pub open spec fn scan_update(d0: Decoder, d1: Decoder) -> bool {
    &&& d1 == (Decoder {
        components: d1.components,
        input_colorspace: d1.input_colorspace,
        z_order: d1.z_order,
        num_scans: d1.num_scans,
        spec_start: d1.spec_start,
        spec_end: d1.spec_end,
        succ_high: d1.succ_high,
        succ_low: d1.succ_low,
        ..d0
    })
    &&& d1.components@.len() == d0.components@.len()
    &&& forall|i: int|
        0 <= i < d0.components@.len() ==> #[trigger] d1.components@[i] == (Components {
            dc_huff_table: d1.components@[i].dc_huff_table,
            ac_huff_table: d1.components@[i].ac_huff_table,
            ..d0.components@[i]
        })
}

/// Index of the component whose identifier is `id`, if any.
fn find_component(components: &Vec<Components>, id: u8) -> (r: Option<usize>)
    ensures
        r matches Some(i) ==> i < components@.len() && components@[i as int].id == id && forall|j: int|
            0 <= j < i ==> #[trigger] components@[j].id != id,
        r is None ==> forall|i: int| 0 <= i < components@.len() ==> #[trigger] components@[i].id != id,
{
    let mut i: usize = 0;
    while i < components.len()
        invariant
            i <= components@.len(),
            forall|j: int| 0 <= j < i ==> #[trigger] components@[j].id != id,
        decreases components@.len() - i,
    {
        if components[i].id == id {
            return Some(i);
        }
        i += 1;
    }
    None
}

/// The component entries of a scan header from `pos` on, `k` of the `ns`
/// read so far: `Ok` when each names a component of the frame, `Err(true)`
/// at the first that names none, `Err(false)` when the data ends first.
pub open spec fn sos_entries(b: Seq<u8>, pos: int, k: int, ns: int, comps: Seq<Components>) -> Result<
    (),
    bool,
>
    decreases ns - k,
{
    if k >= ns {
        Ok(())
    } else if pos + 2 > b.len() {
        Err(false)
    } else if forall|j: int| 0 <= j < comps.len() ==> #[trigger] comps[j].id != b[pos] {
        Err(true)
    } else {
        sos_entries(b, pos + 2, k + 1, ns, comps)
    }
}

/// `c` is the first of the components whose identifier is `id`.
pub open spec fn first_with_id(comps: Seq<Components>, id: u8, c: int) -> bool {
    &&& 0 <= c < comps.len()
    &&& comps[c].id == id
    &&& forall|j: int| 0 <= j < c ==> #[trigger] comps[j].id != id
}

/// The scan header fields up to its entries are ones the decoder accepts:
/// a length that matches the number of components, which is 1 to 3.
pub open spec fn sos_header_ok(r: ByteReader) -> bool {
    &&& r.remaining() >= 3
    &&& be16_at(r, 0) == 6 + 2 * at(r, 2)
    &&& 1 <= at(r, 2) < 4
}

/// Position of the progressive parameters of a scan header.
pub open spec fn sos_tail(r: ByteReader) -> int {
    r.pos() + 3 + 2 * at(r, 2)
}

/// Where the reader stands after an accepted scan header read from `r` by a
/// decoder whose frame is of kind `sof`: after the three bytes of spectral
/// selection and successive approximation (skipped, up to the end of the
/// data, in a sequential frame).
pub open spec fn sos_end(r: ByteReader, sof: SOFMarkers) -> int {
    let q = sos_tail(r);
    if sof == SOFMarkers::ProgressiveDctHuffman || r.bytes().len() - q >= 3 {
        q + 3
    } else {
        r.bytes().len() as int
    }
}

/// What parsing a scan header gives once its entries are read, for a frame
/// of kind `sof`: `Ok` or the error (`Err(true)` for the header, `Err(false)`
/// for data that ends).
pub open spec fn sos_outcome(r: ByteReader, comps: Seq<Components>, sof: SOFMarkers) -> Result<(), bool> {
    match sos_entries(r.bytes(), r.pos() + 3, 0, at(r, 2) as int, comps) {
        Err(e) => Err(e),
        Ok(_) => if sof != SOFMarkers::ProgressiveDctHuffman {
            Ok(())
        } else {
            let q = sos_tail(r);
            if q + 2 > r.bytes().len() {
                Err(false)
            } else if r.bytes()[q + 1] % 64 < r.bytes()[q] % 64 {
                Err(true)
            } else if q + 3 > r.bytes().len() {
                Err(false)
            } else {
                Ok(())
            }
        },
    }
}

/// What an accepted scan header read from `r` makes of the decoder `d0`
/// (`d1`) and where it leaves the reader (`r1`): the scan's components in
/// order, their tables, the spectral selection and successive approximation
/// of a progressive frame.
pub open spec fn sos_read(d0: Decoder, r: ByteReader, d1: Decoder, r1: ByteReader) -> bool {
    let ns = at(r, 2) as int;
    let comps = d1.components@;
    &&& parse_step(d0, d1, r, r1)
    &&& scan_update(d0, d1)
    &&& sos_header_ok(r)
    &&& r1.pos() >= r.pos() + 3
    &&& r1.pos() == sos_end(r, d0.info.sof)
    &&& d1.num_scans == ns
    &&& 1 <= d1.num_scans <= 3
    &&& forall|k: int|
        0 <= k < ns ==> first_with_id(comps, at(r, 3 + 2 * k), #[trigger] d1.z_order[k] as int)
    &&& forall|k: int|
        0 <= k < ns && (forall|k2: int| k < k2 < ns ==> d1.z_order[k2] != d1.z_order[k])
            ==> {
            let c = #[trigger] comps[d1.z_order[k] as int];
            &&& c.dc_huff_table == at(r, 4 + 2 * k) / 16
            &&& c.ac_huff_table == at(r, 4 + 2 * k) % 16
        }
    &&& forall|c: int|
        0 <= c < comps.len() && (forall|k: int| 0 <= k < ns ==> d1.z_order[k] != c)
            ==> #[trigger] comps[c] == d0.components@[c]
    &&& d1.input_colorspace == if ns == 1 && (!d0.is_progressive
        || d0.components@.len() == 1) {
        ColorSpace::GRAYSCALE
    } else {
        d0.input_colorspace
    }
    &&& if d0.info.sof == SOFMarkers::ProgressiveDctHuffman {
        let q = sos_tail(r);
        &&& d1.spec_start == r.bytes()[q] % 64
        &&& d1.spec_end == r.bytes()[q + 1] % 64
        &&& d1.succ_high == r.bytes()[q + 2] / 16
        &&& d1.succ_low == r.bytes()[q + 2] % 16
        &&& r1.pos() == q + 3
    } else {
        &&& d1.spec_start == d0.spec_start
        &&& d1.spec_end == d0.spec_end
        &&& d1.succ_high == d0.succ_high
        &&& d1.succ_low == d0.succ_low
    }
}

/// Parse a start of scan header
///
/// Reads its length, the number of components in the scan (1 to 3), for
/// each a component identifier and its DC and AC table slots (high and low
/// nibble), then the spectral selection and successive approximation of a
/// progressive frame, or three ignored bytes. A scan of one component in a
/// sequential frame, or in a frame of one component, is grayscale.
///
/// Each entry names the first component with its identifier; where several
/// entries name one component, the last one sets its tables.
pub fn parse_sos(reader: &mut ByteReader, decoder: &mut Decoder) -> (res: Result<(), DecodeErrors>)
    requires
        old(decoder).wf(),
        old(reader).wf(),
    ensures
        parse_step(*old(decoder), *final(decoder), *old(reader), *final(reader)),
        scan_update(*old(decoder), *final(decoder)),
        old(reader).remaining() < 2 ==> (res matches Err(DecodeErrors::ExhaustedData)),
        old(reader).remaining() == 2 ==> (res matches Err(DecodeErrors::Format(_))),
        final(decoder).input_colorspace == old(decoder).input_colorspace || (final(decoder).input_colorspace == ColorSpace::GRAYSCALE && (!old(decoder).is_progressive || old(decoder).components@.len() == 1)),
        old(reader).remaining() >= 3 && be16_at(*old(reader), 0) != 6 + 2 * at(*old(reader), 2)
            ==> (res matches Err(DecodeErrors::SosError(_))),
        old(reader).remaining() >= 3 && !(1 <= at(*old(reader), 2) < 4) ==> (res matches Err(
            DecodeErrors::SosError(_),
        )),
        sos_header_ok(*old(reader)) ==> match sos_outcome(
            *old(reader),
            old(decoder).components@,
            old(decoder).info.sof,
        ) {
            Ok(_) => res is Ok,
            Err(header) => if header {
                res matches Err(DecodeErrors::SosError(_))
            } else {
                res matches Err(DecodeErrors::Format(_))
            },
        },
        res is Ok ==> sos_read(*old(decoder), *old(reader), *final(decoder), *final(reader)),
{
    let ghost b = old(reader).bytes();
    let ghost p0 = old(reader).pos();
    let ghost comps0 = old(decoder).components@;
    // Scan header length
    let ls = read_u16_be(reader)?;
    // Number of image components in scan
    let ns = read_byte(reader)?;
    if ls as u32 != 6 + 2 * (ns as u32) {
        return Err(DecodeErrors::SosError(message("Bad SOS length,corrupt jpeg")));
    }
    // Check number of components.
    if !(1 <= ns && ns < 4) {
        return Err(
            DecodeErrors::SosError(
                message_with_number(
                    "Number of components in start of scan should be less than 3 but more than 0. Found ",
                    ns as u64,
                ),
            ),
        );
    }
    // One component-> Grayscale
    if ns == 1 && (!decoder.is_progressive || decoder.components.len() == 1) {
        decoder.input_colorspace = ColorSpace::GRAYSCALE;
    }
    let ghost cs1 = decoder.input_colorspace;
    let mut i: u8 = 0;
    while i < ns
        invariant
            parse_step(*old(decoder), *decoder, *old(reader), *reader),
            scan_update(*old(decoder), *decoder),
            b == old(reader).bytes(),
            p0 == old(reader).pos(),
            comps0 == old(decoder).components@,
            decoder.num_scans == old(decoder).num_scans,
            decoder.spec_start == old(decoder).spec_start,
            decoder.spec_end == old(decoder).spec_end,
            decoder.succ_high == old(decoder).succ_high,
            decoder.succ_low == old(decoder).succ_low,
            decoder.input_colorspace == cs1,
            cs1 == if ns == 1 && (!old(decoder).is_progressive || comps0.len() == 1) {
                ColorSpace::GRAYSCALE
            } else {
                old(decoder).input_colorspace
            },
            1 <= ns < 4,
            i <= ns,
            forall|k: int| 0 <= k < i ==> #[trigger] decoder.z_order[k] < decoder.components@.len(),
            old(reader).remaining() >= 3,
            ns == at(*old(reader), 2),
            ls == be16_at(*old(reader), 0),
            ls == 6 + 2 * ns,
            reader.pos() == p0 + 3 + 2 * i,
            sos_entries(b, reader.pos(), i as int, ns as int, comps0) == sos_entries(
                b,
                p0 + 3,
                0,
                ns as int,
                comps0,
            ),
            forall|k: int|
                0 <= k < i ==> first_with_id(
                    decoder.components@,
                    at(*old(reader), 3 + 2 * k),
                    #[trigger] decoder.z_order[k] as int,
                ),
            forall|k: int|
                0 <= k < i && (forall|k2: int| k < k2 < i ==> decoder.z_order[k2] != decoder.z_order[k]) ==> {
                    let c = #[trigger] decoder.components@[decoder.z_order[k] as int];
                    &&& c.dc_huff_table == at(*old(reader), 4 + 2 * k) / 16
                    &&& c.ac_huff_table == at(*old(reader), 4 + 2 * k) % 16
                },
            forall|c: int|
                0 <= c < comps0.len() && (forall|k: int| 0 <= k < i ==> decoder.z_order[k] != c)
                    ==> #[trigger] decoder.components@[c] == comps0[c],
        decreases ns - i,
    {
        let ghost pos = reader.pos();
        // the component selector
        let id = match read_byte(reader) {
            Ok(v) => v,
            Err(_) => {
                return Err(DecodeErrors::Format(message("No more bytes")));
            },
        };
        // DC and AC huffman table position
        // top 4 bits contain dc huffman destination table
        // lower four bits contain ac huffman destination table
        let y = match read_byte(reader) {
            Ok(v) => v,
            Err(_) => {
                return Err(DecodeErrors::Format(message("No more bytes")));
            },
        };
        assert(id == b[pos] && y == b[pos + 1]);
        assert(id == at(*old(reader), 3 + 2 * i) && y == at(*old(reader), 4 + 2 * i));
        let c = match find_component(&decoder.components, id) {
            Some(c) => c,
            None => {
                assert forall|j: int| 0 <= j < comps0.len() implies #[trigger] comps0[j].id != b[pos] by {
                    assert(decoder.components@[j].id == comps0[j].id);
                }
                return Err(
                    DecodeErrors::SosError(
                        message_with_number("No frame component with identifier ", id as u64),
                    ),
                );
            },
        };
        proof {
            if forall|j: int| 0 <= j < comps0.len() ==> #[trigger] comps0[j].id != b[pos] {
                assert(comps0[c as int].id == decoder.components@[c as int].id);
            }
        }
        let mut comp = decoder.components[c];
        assert(comp.wf());
        comp.dc_huff_table = ((y >> 4) & 0xF) as usize;
        comp.ac_huff_table = (y & 0xF) as usize;
        assert((y >> 4) & 0xF < 16 && y & 0xF < 16 && (y >> 4) & 0xF == y / 16 && y & 0xF == y % 16)
            by (bit_vector);
        assert(comp.wf());
        let ghost before = decoder.components@;
        let ghost z_before = decoder.z_order;
        decoder.components.set(c, comp);
        decoder.z_order[i as usize] = c;
        assert forall|k: int| 0 <= k < old(decoder).components@.len() implies #[trigger] decoder.components@[k]
            == (Components {
            dc_huff_table: decoder.components@[k].dc_huff_table,
            ac_huff_table: decoder.components@[k].ac_huff_table,
            ..old(decoder).components@[k]
        }) by {
            if k != c {
                assert(decoder.components@[k] == before[k]);
            }
        }
        assert forall|k: int| 0 <= k < decoder.components@.len() implies #[trigger] decoder.components@[k].wf() by {
            if k != c {
                assert(decoder.components@[k] == before[k]);
            }
        }
        assert forall|k: int| 0 <= k < decoder.num_scans implies #[trigger] decoder.z_order[k]
            < decoder.components@.len() by {
        }
        assert forall|k: int| 0 <= k < i + 1 implies #[trigger] decoder.z_order[k] < decoder.components@.len() by {
            if k < i {
                assert(decoder.z_order[k] == z_before[k]);
            }
        }
        assert forall|k: int|
            0 <= k < i + 1 implies first_with_id(
            decoder.components@,
            at(*old(reader), 3 + 2 * k),
            #[trigger] decoder.z_order[k] as int,
        ) by {
            if k < i {
                assert(decoder.z_order[k] == z_before[k]);
                assert(first_with_id(before, at(*old(reader), 3 + 2 * k), z_before[k] as int));
                assert forall|j: int| 0 <= j < before.len() implies #[trigger] decoder.components@[j].id
                    == before[j].id by {
                    if j != c {
                        assert(decoder.components@[j] == before[j]);
                    }
                }
            } else {
                assert forall|j: int| 0 <= j < c implies #[trigger] decoder.components@[j].id != id by {
                    assert(decoder.components@[j] == before[j]);
                }
            }
        }
        assert forall|k: int|
            0 <= k < i + 1 && (forall|k2: int| k < k2 < i + 1 ==> decoder.z_order[k2] != decoder.z_order[k])
                implies {
            let cc = #[trigger] decoder.components@[decoder.z_order[k] as int];
            &&& cc.dc_huff_table == at(*old(reader), 4 + 2 * k) / 16
            &&& cc.ac_huff_table == at(*old(reader), 4 + 2 * k) % 16
        } by {
            if k < i {
                assert(decoder.z_order[k] == z_before[k]);
                assert(decoder.z_order[i as int] == c);
                assert(decoder.z_order[i as int] != decoder.z_order[k]);
                assert(z_before[k] != c);
                assert forall|k2: int| k < k2 < i implies z_before[k2] != z_before[k] by {
                    assert(decoder.z_order[k2] == z_before[k2]);
                }
                assert(decoder.components@[z_before[k] as int] == before[z_before[k] as int]);
            }
        }
        assert forall|cc: int|
            0 <= cc < comps0.len() && (forall|k: int| 0 <= k < i + 1 ==> decoder.z_order[k] != cc)
                implies #[trigger] decoder.components@[cc] == comps0[cc] by {
            assert(decoder.z_order[i as int] != cc);
            assert forall|k: int| 0 <= k < i implies z_before[k] != cc by {
                assert(decoder.z_order[k] == z_before[k]);
            }
            assert(decoder.components@[cc] == before[cc]);
        }
        assert(decoder.wf());
        i += 1;
    }
    decoder.num_scans = ns;
    assert(decoder.wf());
    let ghost q = reader.pos();
    assert(q == sos_tail(*old(reader)));
    // Collect the component spec parameters
    if decoder.info.sof == SOFMarkers::ProgressiveDctHuffman {
        // Start of spectral / predictor selection. (between 0 and 63)
        let ss_byte = match read_byte(reader) {
            Ok(v) => v,
            Err(_) => {
                return Err(DecodeErrors::Format(message("No more bytes")));
            },
        };
        let ss = ss_byte & 63;
        // End of spectral selection
        let se_byte = match read_byte(reader) {
            Ok(v) => v,
            Err(_) => {
                return Err(DecodeErrors::Format(message("No more bytes")));
            },
        };
        let se = se_byte & 63;
        assert(ss_byte & 63 < 64 && se_byte & 63 < 64 && ss_byte & 63 == ss_byte % 64 && se_byte & 63
            == se_byte % 64) by (bit_vector);
        assert(ss_byte == b[q] && se_byte == b[q + 1]);
        if se < ss {
            return Err(
                DecodeErrors::SosError(
                    message("End of spectral section smaller than start of spectral selection"),
                ),
            );
        }
        let bit_approx = match read_byte(reader) {
            Ok(v) => v,
            Err(_) => {
                return Err(DecodeErrors::Format(message("No more bytes")));
            },
        };
        decoder.spec_start = ss;
        decoder.spec_end = se;
        // successive approximation bit position high
        decoder.succ_high = bit_approx >> 4;
        // successive approximation bit position low
        decoder.succ_low = bit_approx & 0xF;
        assert(bit_approx >> 4 < 16 && bit_approx & 0xF < 16 && bit_approx >> 4 == bit_approx / 16
            && bit_approx & 0xF == bit_approx % 16) by (bit_vector);
    } else {
        // ignore three bytes that contain progressive information
        reader.consume(3);
    }
    Ok(())
}

/// Parse an application segment: `APP(0)` gives the pixel densities,
/// `APP(1)` may hold Exif data, which is skipped; other segments are left
/// for the caller.
pub fn parse_app(reader: &mut ByteReader, marker: Marker, info: &mut ImageInfo) -> (res: Result<
    (),
    DecodeErrors,
>)
    requires
        old(reader).wf(),
    ensures
        final(reader).wf(),
        final(reader).bytes() == old(reader).bytes(),
        old(reader).pos() <= final(reader).pos(),
        old(reader).remaining() < 2 ==> (res matches Err(DecodeErrors::ExhaustedData)),
        marker != Marker::APP(0) ==> *final(info) == *old(info),
        marker == Marker::APP(0) && old(reader).remaining() >= 14 ==> res is Ok && *final(info) == (
        ImageInfo {
            x_density: be16_at(*old(reader), 10),
            y_density: be16_at(*old(reader), 12),
            ..*old(info)
        }),
        marker == Marker::APP(0) && old(reader).remaining() >= 2 && old(reader).remaining() < 12
            ==> (res matches Err(DecodeErrors::ExhaustedData)),
        res matches Err(e) ==> (e is ExhaustedData || e is Format),
        marker == Marker::APP(0) && old(reader).remaining() >= 14 ==> final(reader).pos() == old(
            reader,
        ).pos() + 14,
        marker != Marker::APP(0) && marker != Marker::APP(1) && old(reader).remaining() >= 2 ==> res is Ok
            && final(reader).pos() == old(reader).pos() + 2,
        marker == Marker::APP(1) && old(reader).remaining() >= 2 ==> {
            let len = be16_at(*old(reader), 0) as int;
            let b = old(reader).bytes();
            let p = old(reader).pos();
            if len < 6 {
                res is Ok && final(reader).pos() == p + 2
            } else if old(reader).remaining() < 8 {
                res matches Err(DecodeErrors::Format(_))
            } else if b.subrange(p + 2, p + 8) == seq![0x45u8, 0x78, 0x69, 0x66, 0, 0] && len >= 8 {
                res is Ok && final(reader).pos() == if b.len() - (p + 8) < len - 8 {
                    b.len() as int
                } else {
                    p + len
                }
            } else {
                res is Ok && final(reader).pos() == p + 8
            }
        },
{
    let length = read_u16_be(reader)? as usize;
    let mut bytes_read: usize = 2;
    match marker {
        Marker::APP(0) => {
            // The only thing we need is the x and y pixel densities here
            // which are found 10 bytes away
            reader.consume(8);
            let x_density = read_u16_be(reader)?;
            info.set_x(x_density);
            let y_density = read_u16_be(reader)?;
            info.set_y(y_density);
        },
        Marker::APP(1) => {
            if length >= 6 {
                let buffer = match read_exact(reader, 6) {
                    Ok(v) => v,
                    Err(_) => {
                        return Err(DecodeErrors::Format(message("Could not read Exif data")));
                    },
                };
                bytes_read += 6;
                let ghost b = old(reader).bytes();
                let ghost p = old(reader).pos();
                let exif = buffer[0] == 0x45 && buffer[1] == 0x78 && buffer[2] == 0x69 && buffer[3]
                    == 0x66 && buffer[4] == 0 && buffer[5] == 0;
                assert(exif == (b.subrange(p + 2, p + 8) == seq![0x45u8, 0x78, 0x69, 0x66, 0, 0])) by {
                    if b.subrange(p + 2, p + 8) == seq![0x45u8, 0x78, 0x69, 0x66, 0, 0] {
                        assert(buffer@ == b.subrange(p + 2, p + 8));
                    }
                    if exif {
                        assert(buffer@ =~= seq![0x45u8, 0x78, 0x69, 0x66, 0, 0]);
                    }
                }
                // 4.5.4 Basic Structure of JPEG Compressed Data
                if exif && length >= bytes_read {
                    reader.consume(length - bytes_read);
                }
            }
        },
        _ => {},
    }
    Ok(())
}

} // verus!
