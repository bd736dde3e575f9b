//! Routines for progressive decoding
//!
//! A progressive image spreads the coefficients of its blocks over several
//! scans: the DC coefficients first (possibly several components interleaved),
//! then bands of AC coefficients of one component at a time, each scan maybe
//! refining the bits of an earlier one. The coefficients accumulate in the
//! component planes; once the image ends they are post processed like those of
//! a sequential image.
use vstd::prelude::*;
use vstd::arithmetic::power2::pow2;

use crate::bitstream::{
    ac_first_coeffs, advanced, dc_diff, lemma_ac_first_coeffs_shifted, lemma_advanced_shifted,
    lemma_advanced_trans, lemma_dc_diff_shifted, lemma_refine_coeffs_shifted, lemma_refine_run_shifted,
    lemma_empty_stream_bits, refine_coeffs, refine_run, scan_marker, segment_bits_at, stop_at, stream_step,
    BitStream,
};
use crate::huffman::HuffmanTable;
use crate::decoder::{marker_effect, marker_ok, Decoder, ZuneJpegOptions};
use crate::errors::{message, DecodeErrors};
use crate::headers::{parse_huffman, parse_sos};
use crate::marker::{spec_marker, Marker};
use crate::mcu::{
    block_offset, components_match, count_after, decoded_pixels, frame_geom, frame_layout, lemma_frame_layout_unique, prepared_ok, scan_start, get_marker, get_table, is_decoded_image,
    lemma_geometry_bounds, lemma_match_at, lemma_row_col, load_block, plane_of, reads_context, restart,
    restarts_at, scan_step, single_extent, spec_qt, store_component_block, supported_sampling, unit_end, with_block, Geometry,
    ScanContext, ScanState,
};
use crate::misc::{spec_num_components, ByteReader, ColorSpace};
use crate::components::{ComponentID, Components};
use crate::worker::{needs_chroma, post_process_prog};

verus! {

/// Load block `offset` of the plane of component `k` (zeros for a component
/// that is not decoded).
fn load_component_block(p0: &Vec<i16>, p1: &Vec<i16>, p2: &Vec<i16>, k: usize, offset: usize) -> (block: [i16; 64])
    requires
        k == 0 ==> offset + 64 <= p0@.len(),
        k == 1 ==> offset + 64 <= p1@.len(),
        k == 2 ==> offset + 64 <= p2@.len(),
    ensures
        k == 0 ==> block@ == p0@.subrange(offset as int, offset + 64),
        k == 1 ==> block@ == p1@.subrange(offset as int, offset + 64),
        k == 2 ==> block@ == p2@.subrange(offset as int, offset + 64),
{
    if k == 0 {
        load_block(p0, offset)
    } else if k == 1 {
        load_block(p1, offset)
    } else if k == 2 {
        load_block(p2, offset)
    } else {
        [0i16; 64]
    }
}

/// The table in `slot` of `tables` as code counts and symbols, if one was
/// defined there.
pub open spec fn table_in(tables: Seq<Option<HuffmanTable>>, slot: int) -> Option<(Seq<u8>, Seq<u8>)> {
    if 0 <= slot < tables.len() && tables[slot] is Some {
        Some((tables[slot].unwrap().spec_counts(), tables[slot].unwrap().spec_values()))
    } else {
        None
    }
}

/// The parameters of the decoder's current progressive scan: start and end
/// of spectral selection, successive approximation bit positions high and
/// low.
pub open spec fn scan_params(d: Decoder) -> (int, int, int, int) {
    (d.spec_start as int, d.spec_end as int, d.succ_high as int, d.succ_low as int)
}

/// A block of a progressive scan with the parameters `p` (see
/// `scan_params`), coded in the bits of `src` at `at` with the table `t`
/// (code counts and symbols; the DC table in a DC scan, the AC table in an AC
/// scan): from the block `block`, the DC prediction `pred` and the
/// end-of-band run `eob`, the block after, the new prediction, the position
/// after the bits taken and the run left; `Err` when a DC scan holds AC
/// coefficients too, a code is not in the table, or a refined coefficient is
/// larger than one bit.
///
/// A first DC scan adds the coded difference to the prediction and sets the
/// DC coefficient to it, scaled; a DC refinement adds the scale when its bit
/// is set. An AC scan inside an end-of-band run uses up one block of the run
/// (refining the nonzero coefficients of the band); otherwise it decodes the
/// band's symbols.
#[verifier::opaque]
pub open spec fn prog_block(
    src: spec_fn(int) -> int,
    at: int,
    p: (int, int, int, int),
    t: (Seq<u8>, Seq<u8>),
    block: Seq<i16>,
    pred: i32,
    eob: int,
) -> Result<(Seq<i16>, i32, int, int), ()> {
    let (ss, se, ah, al) = p;
    if ss == 0 {
        if se != 0 {
            Err(())
        } else if ah == 0 {
            let (diff, used) = dc_diff(src, at, t.0, t.1);
            let q = pred.wrapping_add(diff as i32);
            Ok((block.update(0, (((q as i16) as int) * pow2(al as nat)) as i16), q, at + used, eob))
        } else {
            Ok(
                (
                    if src(at) == 1 {
                        block.update(0, #[verifier::truncate] ((block[0] + pow2(al as nat)) as i16))
                    } else {
                        block
                    },
                    pred,
                    at + 1,
                    eob,
                ),
            )
        }
    } else if ah == 0 {
        if eob > 0 {
            Ok((block, pred, at, eob - 1))
        } else {
            match ac_first_coeffs(src, at, ss, se, block, t.0, t.1, pow2(al as nat) as int, eob) {
                Err(_) => Err(()),
                Ok((b, a2, e2)) => Ok((b, pred, a2, e2)),
            }
        }
    } else {
        if eob > 0 {
            let (b, a2, _) = refine_run(src, at, ss, se, 64, 0, block, pow2(al as nat) as i32);
            Ok((b, pred, a2, eob - 1))
        } else {
            match refine_coeffs(src, at, ss, se, block, t.0, t.1, pow2(al as nat) as i32, eob) {
                Err(_) => Err(()),
                Ok((b, a2, e2)) => Ok((b, pred, a2, e2)),
            }
        }
    }
}

/// The block at `offset` of the plane of component `k` (a zero block for a
/// component that is not decoded).
pub open spec fn plane_block(g: Geometry, st: ScanState, k: int, offset: int) -> Seq<i16> {
    if k == 0 && k < g.ncomp {
        st.2.subrange(offset, offset + 64)
    } else if k == 1 && k < g.ncomp {
        st.3.subrange(offset, offset + 64)
    } else if k == 2 && k < g.ncomp {
        st.4.subrange(offset, offset + 64)
    } else {
        Seq::new(64, |i: int| 0i16)
    }
}

/// Block `(row, col)` of component `k` of a progressive scan decoded from the
/// state `st` (see `prog_block`): the state after it, the coefficients kept
/// in the component's plane when it is decoded, and the end-of-band run
/// left.
pub open spec fn prog_scan_block(
    g: Geometry,
    src: spec_fn(int) -> int,
    st: ScanState,
    eob: int,
    k: int,
    p: (int, int, int, int),
    t: (Seq<u8>, Seq<u8>),
    row: int,
    col: int,
) -> Result<(ScanState, int), ()> {
    let off = (row * g.bw(k) + col) * 64;
    match prog_block(src, st.0, p, t, plane_block(g, st, k, off), st.1[k], eob) {
        Err(_) => Err(()),
        Ok((b, q, a2, e2)) => Ok(
            (
                (
                    a2,
                    st.1.update(k, q),
                    if k == 0 && k < g.ncomp {
                        with_block(st.2, off, b)
                    } else {
                        st.2
                    },
                    if k == 1 && k < g.ncomp {
                        with_block(st.3, off, b)
                    } else {
                        st.3
                    },
                    if k == 2 && k < g.ncomp {
                        with_block(st.4, off, b)
                    } else {
                        st.4
                    },
                ),
                e2,
            ),
        ),
    }
}

/// What the end of a unit of a progressive scan does (see `unit_end`); a
/// restart marker also ends the end-of-band run.
pub open spec fn prog_unit_end(
    bytes: Seq<u8>,
    ri: int,
    more: bool,
    ctx: ScanContext,
    st: ScanState,
    eob: int,
) -> Option<(ScanContext, ScanState, int)> {
    match unit_end(bytes, ri, more, ctx, st) {
        None => None,
        Some((c2, s2)) => Some(
            (
                c2,
                s2,
                if count_after(ctx.2) == 0 && restarts_at(ctx.1) {
                    0
                } else {
                    eob
                },
            ),
        ),
    }
}

/// The blocks `n..` of a progressive scan of one component `k`, `bw` blocks
/// across and `bh` down, in rows, with the table `t`, from the context `ctx`,
/// the state `st` and the end-of-band run `eob`; `None` when the table is
/// missing, a block fails or a restart fails.
pub open spec fn prog_single_run(
    g: Geometry,
    bytes: Seq<u8>,
    ri: int,
    k: int,
    p: (int, int, int, int),
    t: Option<(Seq<u8>, Seq<u8>)>,
    bw: int,
    bh: int,
    n: int,
    ctx: ScanContext,
    st: ScanState,
    eob: int,
) -> Option<(ScanContext, ScanState, int)>
    decreases bw * bh - n,
{
    if n >= bw * bh || n < 0 || bw <= 0 || !ctx.3 {
        Some((ctx, st, eob))
    } else {
        match t {
            None => None,
            Some(tt) => match prog_scan_block(g, ctx.0, st, eob, k, p, tt, n / bw, n % bw) {
                Err(_) => None,
                Ok((s1, e1)) => match prog_unit_end(bytes, ri, n + 1 < bw * bh, ctx, s1, e1) {
                    None => None,
                    Some((c2, s2, e2)) => prog_single_run(g, bytes, ri, k, p, t, bw, bh, n + 1, c2, s2, e2),
                },
            },
        }
    }
}

/// The DC blocks of the MCU at row `i`, column `j` of an interleaved
/// progressive scan, from block `(vs, hs)` of its `s`-th component on (see
/// `mcu_blocks`); `None` when a DC table is missing or a block fails.
pub open spec fn prog_mcu_blocks(
    d: Decoder,
    g: Geometry,
    src: spec_fn(int) -> int,
    st: ScanState,
    i: int,
    j: int,
    s: int,
    vs: int,
    hs: int,
) -> Option<ScanState>
    decreases 4 - s, 9 - vs, 9 - hs,
{
    if s >= d.num_scans || s >= 4 || s < 0 {
        Some(st)
    } else {
        let k = d.z_order[s] as int;
        let c = d.components@[k];
        match table_in(d.dc_huffman_tables@, c.dc_huff_table as int) {
            None => None,
            Some(t) => if vs >= c.vertical_sample || vs >= 8 || vs < 0 {
                prog_mcu_blocks(d, g, src, st, i, j, s + 1, 0, 0)
            } else if hs >= c.horizontal_sample || hs >= 8 || hs < 0 {
                prog_mcu_blocks(d, g, src, st, i, j, s, vs + 1, 0)
            } else {
                match prog_scan_block(
                    g,
                    src,
                    st,
                    0,
                    k,
                    scan_params(d),
                    t,
                    i * c.vertical_sample + vs,
                    j * c.horizontal_sample + hs,
                ) {
                    Err(_) => None,
                    Ok((s2, e2)) => prog_mcu_blocks(d, g, src, s2, i, j, s, vs, hs + 1),
                }
            },
        }
    }
}

/// The MCUs `m..` of an interleaved progressive scan, in rows of `mcu_x`,
/// from the context `ctx` and the state `st`.
pub open spec fn prog_mcus_run(
    d: Decoder,
    g: Geometry,
    bytes: Seq<u8>,
    m: int,
    ctx: ScanContext,
    st: ScanState,
) -> Option<(ScanContext, ScanState)>
    decreases g.mcu_x * g.mcu_y - m,
{
    if m >= g.mcu_x * g.mcu_y || m < 0 || g.mcu_x == 0 || !ctx.3 {
        Some((ctx, st))
    } else {
        match prog_mcu_blocks(d, g, ctx.0, st, m / g.mcu_x as int, m % g.mcu_x as int, 0, 0, 0) {
            None => None,
            Some(s1) => match unit_end(
                bytes,
                d.restart_interval as int,
                m + 1 < g.mcu_x * g.mcu_y,
                ctx,
                s1,
            ) {
                None => None,
                Some((c2, s2)) => prog_mcus_run(d, g, bytes, m + 1, c2, s2),
            },
        }
    }
}

/// The count of units before the first restart of a progressive scan.
pub open spec fn prog_count(d: Decoder) -> int {
    if d.restart_interval == 0 {
        0x7fff_ffff
    } else {
        d.restart_interval as int
    }
}

/// What decoding the progressive scan of the decoder `d` whose data starts
/// at `pos` of `bytes` makes of the planes of `st`: its one component block
/// by block, or the DC coefficients of its components MCU by MCU, from zero
/// DC predictions; `None` when the scan mixes DC and AC coefficients, a table
/// is missing or a block or a restart fails.
pub open spec fn prog_scan_run(
    d: Decoder,
    g: Geometry,
    bytes: Seq<u8>,
    pos: int,
    st: ScanState,
) -> Option<(ScanContext, ScanState)> {
    let ctx = (segment_bits_at(bytes, pos), stop_at(bytes, pos), prog_count(d), true);
    let p = scan_params(d);
    if d.num_scans == 1 {
        if p.0 == 0 && p.1 != 0 {
            None
        } else {
            let k = d.z_order[0] as int;
            if k < g.ncomp {
                let (bw, bh) = single_extent(d, g, k);
                match prog_single_run(
                    g,
                    bytes,
                    d.restart_interval as int,
                    k,
                    p,
                    d.prog_table(k),
                    bw,
                    bh,
                    0,
                    ctx,
                    st,
                    0,
                ) {
                    None => None,
                    Some((c2, s2, e2)) => Some((c2, s2)),
                }
            } else {
                Some((ctx, st))
            }
        }
    } else if p.1 != 0 {
        None
    } else {
        prog_mcus_run(d, g, bytes, 0, ctx, st)
    }
}

impl Decoder {
    /// Decode block `(row, col)` of component `k` of the current progressive
    /// scan with the table `table` (see `prog_scan_block`): the block of the
    /// component's plane, or a zero block when the component is not decoded,
    /// is decoded and stored back. The stream has advanced by `at` from
    /// `(sb, rb)`; returns the position in the bits of `(sb, rb)` after the
    /// block.
    #[verifier::spinoff_prover]
    #[verifier::rlimit(80)]
    fn decode_prog_block(
        &self,
        g: &Geometry,
        reader: &mut ByteReader,
        stream: &mut BitStream,
        preds: &mut Vec<i32>,
        p0: &mut Vec<i16>,
        p1: &mut Vec<i16>,
        p2: &mut Vec<i16>,
        k: usize,
        row: usize,
        col: usize,
        table: &HuffmanTable,
        Ghost(sb): Ghost<BitStream>,
        Ghost(rb): Ghost<ByteReader>,
        Ghost(at): Ghost<int>,
    ) -> (res: Result<Ghost<int>, DecodeErrors>)
        requires
            self.wf(),
            g.wf(),
            old(stream).wf(),
            old(reader).wf(),
            table.wf(),
            k < old(preds)@.len(),
            k < g.ncomp ==> k < 3 && row < g.bh(k as int) && col < g.bw(k as int),
            plane_of(*g, 0, old(p0)@, old(p1)@, old(p2)@),
            at >= 0,
            advanced(sb, rb, *old(stream), *old(reader), at),
            old(stream).successive_high == self.succ_high,
            old(stream).successive_low == self.succ_low,
            old(stream).spec_start == self.spec_start,
            old(stream).spec_end == self.spec_end,
        ensures
            stream_step(*old(stream), *final(stream), *old(reader), *final(reader)),
            final(preds)@.len() == old(preds)@.len(),
            plane_of(*g, 0, final(p0)@, final(p1)@, final(p2)@),
            res matches Err(e) ==> e is HuffmanDecode,
            res matches Ok(end) ==> end@ >= at,
            match prog_scan_block(
                *g,
                sb.ahead(rb),
                (at, old(preds)@, old(p0)@, old(p1)@, old(p2)@),
                old(stream).eob_run as int,
                k as int,
                scan_params(*self),
                (table.spec_counts(), table.spec_values()),
                row as int,
                col as int,
            ) {
                Err(_) => res is Err,
                Ok((st, e)) => {
                    &&& res matches Ok(end) && end@ == st.0
                    &&& final(preds)@ == st.1
                    &&& final(p0)@ == st.2
                    &&& final(p1)@ == st.3
                    &&& final(p2)@ == st.4
                    &&& final(stream).eob_run == e
                    &&& advanced(sb, rb, *final(stream), *final(reader), st.0)
                },
            },
    {
        let ghost sa = *stream;
        let ghost ra = *reader;
        let ghost f = sa.ahead(ra);
        let ghost src = sb.ahead(rb);
        proof {
            reveal(prog_block);
        }
        let ghost ss = self.spec_start as int;
        let ghost se = self.spec_end as int;
        let ghost al = self.succ_low as int;
        proof {
            lemma_advanced_shifted(sb, rb, sa, ra, at);
        }
        let offset: usize = if k < g.ncomp {
            proof {
                lemma_geometry_bounds(*g, k as int);
            }
            block_offset(g, k, row, col)
        } else {
            0
        };
        let ghost off = (row * g.bw(k as int) + col) * 64;
        let mut block = if k < g.ncomp {
            load_component_block(p0, p1, p2, k, offset)
        } else {
            let zero = [0i16; 64];
            assert(zero@ =~= Seq::new(64, |i: int| 0i16));
            zero
        };
        assert(block@ == plane_block(*g, (at, old(preds)@, old(p0)@, old(p1)@, old(p2)@), k as int, off));
        let ghost b0 = block@;
        let mut pred = preds[k];
        let ghost eob0 = stream.eob_run as int;
        if self.spec_start == 0 {
            proof {
                lemma_dc_diff_shifted(f, src, at, 0, table.spec_counts(), table.spec_values());
                assert(f(0) == src(at));
            }
            stream.decode_block_dc(reader, table, &mut block, &mut pred)?;
            proof {
                if self.succ_high == 0 {
                    let used = dc_diff(f, 0, table.spec_counts(), table.spec_values()).1;
                    lemma_advanced_trans(sb, rb, sa, ra, *stream, *reader, at, used);
                    assert(block@ =~= b0.update(0, (((pred as i16) as int) * pow2(al as nat)) as i16));
                } else {
                    assert(f(0) == src(at));
                    lemma_advanced_trans(sb, rb, sa, ra, *stream, *reader, at, 1);
                    if src(at) == 1 {
                        assert(block@ =~= b0.update(
                            0,
                            #[verifier::truncate] ((b0[0] + pow2(al as nat)) as i16),
                        ));
                    } else {
                        assert(block@ =~= b0);
                    }
                }
            }
        } else if self.succ_high == 0 {
            let ghost eob = eob0;
            proof {
                lemma_ac_first_coeffs_shifted(
                    f,
                    src,
                    at,
                    0,
                    ss,
                    se,
                    b0,
                    table.spec_counts(),
                    table.spec_values(),
                    pow2(al as nat) as int,
                    eob,
                );
            }
            stream.decode_mcu_ac_first(reader, table, &mut block)?;
            proof {
                if eob > 0 {
                    lemma_advanced_trans(sb, rb, sa, ra, *stream, *reader, at, 0);
                } else {
                    let used = ac_first_coeffs(
                        f,
                        0,
                        ss,
                        se,
                        b0,
                        table.spec_counts(),
                        table.spec_values(),
                        pow2(al as nat) as int,
                        eob,
                    )->Ok_0.1;
                    lemma_advanced_trans(sb, rb, sa, ra, *stream, *reader, at, used);
                }
            }
        } else {
            let ghost eob = eob0;
            proof {
                lemma_refine_run_shifted(f, src, at, 0, ss, se, 64, 0, b0, pow2(al as nat) as i32);
                lemma_refine_coeffs_shifted(
                    f,
                    src,
                    at,
                    0,
                    ss,
                    se,
                    b0,
                    table.spec_counts(),
                    table.spec_values(),
                    pow2(al as nat) as i32,
                    eob,
                );
            }
            stream.decode_mcu_ac_refine(reader, table, &mut block)?;
            proof {
                if eob > 0 {
                    let used = refine_run(f, 0, ss, se, 64, 0, b0, pow2(al as nat) as i32).1;
                    lemma_advanced_trans(sb, rb, sa, ra, *stream, *reader, at, used);
                } else {
                    let used = refine_coeffs(
                        f,
                        0,
                        ss,
                        se,
                        b0,
                        table.spec_counts(),
                        table.spec_values(),
                        pow2(al as nat) as i32,
                        eob,
                    )->Ok_0.1;
                    lemma_advanced_trans(sb, rb, sa, ra, *stream, *reader, at, used);
                }
            }
        }
        preds.set(k, pred);
        if k < g.ncomp {
            store_component_block(p0, p1, p2, k, offset, &block);
        }
        let ghost end = match prog_block(
            src,
            at,
            scan_params(*self),
            (table.spec_counts(), table.spec_values()),
            b0,
            old(preds)@[k as int],
            eob0,
        ) {
            Ok((b, q, a2, e2)) => a2,
            Err(_) => at,
        };
        Ok(Ghost(end))
    }
}

impl Decoder {
    /// Decode the DC coefficients of the blocks of the MCU at row `i`,
    /// column `j` of an interleaved progressive scan (see
    /// `prog_mcu_blocks`); when `track` holds, the stream has advanced by `at`
    /// from `(s0, r0)`. Returns the position in the bits of `(s0, r0)` after
    /// the MCU.
    #[verifier::spinoff_prover]
    #[verifier::rlimit(60)]
    fn decode_prog_mcu(
        &self,
        g: &Geometry,
        reader: &mut ByteReader,
        stream: &mut BitStream,
        preds: &mut Vec<i32>,
        p0: &mut Vec<i16>,
        p1: &mut Vec<i16>,
        p2: &mut Vec<i16>,
        i: usize,
        j: usize,
        Ghost(s0): Ghost<BitStream>,
        Ghost(r0): Ghost<ByteReader>,
        Ghost(at): Ghost<int>,
        Ghost(track): Ghost<bool>,
    ) -> (res: Result<Ghost<int>, DecodeErrors>)
        requires
            self.wf(),
            g.wf(),
            self.matches_geometry(*g),
            i < g.mcu_y,
            j < g.mcu_x,
            plane_of(*g, 0, old(p0)@, old(p1)@, old(p2)@),
            old(preds)@.len() == self.components@.len(),
            old(stream).wf(),
            old(reader).wf(),
            at >= 0,
            track ==> advanced(s0, r0, *old(stream), *old(reader), at),
            self.spec_start == 0,
            self.spec_end == 0,
            old(stream).successive_high == self.succ_high,
            old(stream).successive_low == self.succ_low,
            old(stream).spec_start == self.spec_start,
            old(stream).spec_end == self.spec_end,
        ensures
            scan_step(
                *g,
                *old(stream),
                *final(stream),
                *old(reader),
                *final(reader),
                final(p0)@,
                final(p1)@,
                final(p2)@,
                self.components@.len() as int,
                final(preds)@,
            ),
            res matches Err(e) ==> e is HuffmanDecode,
            res matches Ok(e) ==> e@ >= at,
            final(stream).pending(*final(reader)) == old(stream).pending(*old(reader)),
            track ==> match prog_mcu_blocks(
                *self,
                *g,
                s0.ahead(r0),
                (at, old(preds)@, old(p0)@, old(p1)@, old(p2)@),
                i as int,
                j as int,
                0,
                0,
                0,
            ) {
                None => res is Err,
                Some(st) => {
                    &&& res matches Ok(e) && e@ == st.0
                    &&& final(preds)@ == st.1
                    &&& final(p0)@ == st.2
                    &&& final(p1)@ == st.3
                    &&& final(p2)@ == st.4
                    &&& advanced(s0, r0, *final(stream), *final(reader), st.0)
                },
            },
    {
        proof {
            reveal(prog_block);
        }
        let ghost src = s0.ahead(r0);
        let ghost target = prog_mcu_blocks(
            *self,
            *g,
            src,
            (at, old(preds)@, old(p0)@, old(p1)@, old(p2)@),
            i as int,
            j as int,
            0,
            0,
            0,
        );
        let ghost mut cur: int = at;
        let ns = self.num_scans as usize;
        let mut s: usize = 0;
        while s < ns
            invariant
                self.wf(),
                g.wf(),
                self.matches_geometry(*g),
                ns == self.num_scans,
                i < g.mcu_y,
                j < g.mcu_x,
                s <= ns,
                scan_step(
                    *g,
                    *old(stream),
                    *stream,
                    *old(reader),
                    *reader,
                    p0@,
                    p1@,
                    p2@,
                    self.components@.len() as int,
                    preds@,
                ),
                src == s0.ahead(r0),
                stream.pending(*reader) == old(stream).pending(*old(reader)),
                self.spec_start == 0,
                self.spec_end == 0,
                old(stream).successive_high == self.succ_high,
                old(stream).successive_low == self.succ_low,
                old(stream).spec_start == self.spec_start,
                old(stream).spec_end == self.spec_end,
                cur >= at,
                at >= 0,
                track ==> advanced(s0, r0, *stream, *reader, cur),
                track ==> prog_mcu_blocks(*self, *g, src, (cur, preds@, p0@, p1@, p2@), i as int, j as int, s as int, 0, 0)
                    == target,
                target == prog_mcu_blocks(
                    *self,
                    *g,
                    src,
                    (at, old(preds)@, old(p0)@, old(p1)@, old(p2)@),
                    i as int,
                    j as int,
                    0,
                    0,
                    0,
                ),
            decreases ns - s,
        {
            let k = self.z_order[s];
            let comp = self.components[k];
            let dc = match get_table(&self.dc_huffman_tables, comp.dc_huff_table) {
                Some(t) => t,
                None => {
                    return Err(DecodeErrors::HuffmanDecode(message("Huffman table not initialized")));
                },
            };
            let ghost t = (dc.spec_counts(), dc.spec_values());
            assert(table_in(self.dc_huffman_tables@, comp.dc_huff_table as int) == Some(t));
            assert(comp.wf());
            let mut vs: usize = 0;
            while vs < comp.vertical_sample
                invariant
                    self.wf(),
                    g.wf(),
                    self.matches_geometry(*g),
                    ns == self.num_scans,
                    s < ns,
                    i < g.mcu_y,
                    j < g.mcu_x,
                    k == self.z_order[s as int],
                    k < self.components@.len(),
                    comp == self.components@[k as int],
                    comp.wf(),
                    dc.wf(),
                    table_in(self.dc_huffman_tables@, comp.dc_huff_table as int) == Some(t),
                    t == (dc.spec_counts(), dc.spec_values()),
                    vs <= comp.vertical_sample,
                    scan_step(
                        *g,
                        *old(stream),
                        *stream,
                        *old(reader),
                        *reader,
                        p0@,
                        p1@,
                        p2@,
                        self.components@.len() as int,
                        preds@,
                    ),
                    src == s0.ahead(r0),
                stream.pending(*reader) == old(stream).pending(*old(reader)),
                self.spec_start == 0,
                self.spec_end == 0,
                old(stream).successive_high == self.succ_high,
                old(stream).successive_low == self.succ_low,
                old(stream).spec_start == self.spec_start,
                old(stream).spec_end == self.spec_end,
                    cur >= at,
                    at >= 0,
                    track ==> advanced(s0, r0, *stream, *reader, cur),
                    track ==> prog_mcu_blocks(
                        *self,
                        *g,
                        src,
                        (cur, preds@, p0@, p1@, p2@),
                        i as int,
                        j as int,
                        s as int,
                        vs as int,
                        0,
                    ) == target,
                decreases comp.vertical_sample - vs,
            {
                let mut hs: usize = 0;
                while hs < comp.horizontal_sample
                    invariant
                        self.wf(),
                        g.wf(),
                        self.matches_geometry(*g),
                        ns == self.num_scans,
                        s < ns,
                        i < g.mcu_y,
                        j < g.mcu_x,
                        k == self.z_order[s as int],
                        k < self.components@.len(),
                        comp == self.components@[k as int],
                        comp.wf(),
                        dc.wf(),
                            table_in(self.dc_huffman_tables@, comp.dc_huff_table as int) == Some(t),
                        t == (dc.spec_counts(), dc.spec_values()),
                        vs < comp.vertical_sample,
                        hs <= comp.horizontal_sample,
                        scan_step(
                            *g,
                            *old(stream),
                            *stream,
                            *old(reader),
                            *reader,
                            p0@,
                            p1@,
                            p2@,
                            self.components@.len() as int,
                            preds@,
                        ),
                        src == s0.ahead(r0),
                stream.pending(*reader) == old(stream).pending(*old(reader)),
                self.spec_start == 0,
                self.spec_end == 0,
                old(stream).successive_high == self.succ_high,
                old(stream).successive_low == self.succ_low,
                old(stream).spec_start == self.spec_start,
                old(stream).spec_end == self.spec_end,
                        cur >= at,
                        at >= 0,
                        track ==> advanced(s0, r0, *stream, *reader, cur),
                        track ==> prog_mcu_blocks(
                            *self,
                            *g,
                            src,
                            (cur, preds@, p0@, p1@, p2@),
                            i as int,
                            j as int,
                            s as int,
                            vs as int,
                            hs as int,
                        ) == target,
                    decreases comp.horizontal_sample - hs,
                {
                    assert(i * comp.vertical_sample + vs <= 8 * 0x1000_0000 && j * comp.horizontal_sample
                        + hs <= 8 * 0x1000_0000) by (nonlinear_arith)
                        requires
                            i < g.mcu_y,
                            j < g.mcu_x,
                            g.mcu_y <= 0x1000_0000,
                            g.mcu_x <= 0x1000_0000,
                            vs < comp.vertical_sample <= 8,
                            hs < comp.horizontal_sample <= 8,
                    ;
                    let row = i * comp.vertical_sample + vs;
                    let col = j * comp.horizontal_sample + hs;
                    if k < g.ncomp {
                        proof {
                            lemma_geometry_bounds(*g, k as int);
                            lemma_match_at(self.components@, *g, g.ncomp as int, k as int);
                        }
                        assert(row < g.bh(k as int) && col < g.bw(k as int)) by (nonlinear_arith)
                            requires
                                i < g.mcu_y,
                                j < g.mcu_x,
                                vs < comp.vertical_sample,
                                hs < comp.horizontal_sample,
                                row == i * comp.vertical_sample + vs,
                                col == j * comp.horizontal_sample + hs,
                                g.bh(k as int) == g.mcu_y * comp.vertical_sample,
                                g.bw(k as int) == g.mcu_x * comp.horizontal_sample,
                        ;
                    }
                    let ghost sa = *stream;
                    let ghost ra = *reader;
                    proof {
                        reveal(prog_block);
                    }
                    let end = self.decode_prog_block(
                        g,
                        reader,
                        stream,
                        preds,
                        p0,
                        p1,
                        p2,
                        k,
                        row,
                        col,
                        dc,
                        Ghost(if track {
                            s0
                        } else {
                            sa
                        }),
                        Ghost(if track {
                            r0
                        } else {
                            ra
                        }),
                        Ghost(if track {
                            cur
                        } else {
                            0
                        }),
                    )?;
                    proof {
                        if track {
                            cur = end@;
                        }
                    }
                    hs += 1;
                }
                vs += 1;
            }
            s += 1;
        }
        Ok(Ghost(cur))
    }

}

impl Decoder {
    /// The table a progressive scan of the one component `k` decodes with:
    /// the component's DC table in a DC scan, its AC table in an AC scan.
    pub open spec fn prog_table(&self, k: int) -> Option<(Seq<u8>, Seq<u8>)> {
        let c = self.components@[k];
        if self.spec_start == 0 {
            table_in(self.dc_huffman_tables@, c.dc_huff_table as int)
        } else {
            table_in(self.ac_huffman_tables@, c.ac_huff_table as int)
        }
    }

    /// Decode a progressive scan of the one component `self.z_order[0]` (a
    /// decoded one), its blocks in rows, `todo` blocks before the first
    /// restart.
    #[verifier::spinoff_prover]
    #[verifier::rlimit(100)]
    fn decode_prog_single(
        &self,
        g: &Geometry,
        reader: &mut ByteReader,
        stream: &mut BitStream,
        preds: &mut Vec<i32>,
        p0: &mut Vec<i16>,
        p1: &mut Vec<i16>,
        p2: &mut Vec<i16>,
        todo: usize,
    ) -> (res: Result<(), DecodeErrors>)
        requires
            self.wf(),
            g.wf(),
            self.matches_geometry(*g),
            plane_of(*g, 0, old(p0)@, old(p1)@, old(p2)@),
            old(preds)@.len() == self.components@.len(),
            old(stream).wf(),
            old(reader).wf(),
            old(stream).successive_high == self.succ_high,
            old(stream).successive_low == self.succ_low,
            old(stream).spec_start == self.spec_start,
            old(stream).spec_end == self.spec_end,
            self.num_scans == 1,
            !(self.spec_start == 0 && self.spec_end != 0),
            self.z_order[0] < g.ncomp,
        ensures
            scan_step(
                *g,
                *old(stream),
                *final(stream),
                *old(reader),
                *final(reader),
                final(p0)@,
                final(p1)@,
                final(p2)@,
                self.components@.len() as int,
                final(preds)@,
            ),
            final(stream).successive_high == old(stream).successive_high,
            final(stream).successive_low == old(stream).successive_low,
            final(stream).spec_start == old(stream).spec_start,
            final(stream).spec_end == old(stream).spec_end,
            res matches Err(e) ==> (e is HuffmanDecode || e is MCUError),
            ({
                let k = self.z_order[0] as int;
                let (bw, bh) = single_extent(*self, *g, k);
                match prog_single_run(
                    *g,
                    old(reader).bytes(),
                    self.restart_interval as int,
                    k,
                    scan_params(*self),
                    self.prog_table(k),
                    bw,
                    bh,
                    0,
                    (old(stream).ahead(*old(reader)), old(stream).pending(*old(reader)), todo as int, true),
                    (0, old(preds)@, old(p0)@, old(p1)@, old(p2)@),
                    old(stream).eob_run as int,
                ) {
                    None => res is Err,
                    Some((c, st, e)) => c.3 ==> {
                        &&& res is Ok
                        &&& final(stream).pending(*final(reader)) == c.1
                        &&& final(p0)@ == st.2
                        &&& final(p1)@ == st.3
                        &&& final(p2)@ == st.4
                    },
                }
            }),
    {
        proof {
            lemma_geometry_bounds(*g, 0);
            lemma_geometry_bounds(*g, 1);
            lemma_geometry_bounds(*g, 2);
        }
        let ghost s0 = *old(stream);
        let ghost r0 = *old(reader);
        let ghost bytes = r0.bytes();
        let ghost ri = self.restart_interval as int;
        let ghost ctx0: ScanContext = (s0.ahead(r0), s0.pending(r0), todo as int, true);
        let ghost st0: ScanState = (0int, old(preds)@, old(p0)@, old(p1)@, old(p2)@);
        let ghost mut ctx: ScanContext = ctx0;
        let ghost mut at: int = 0;
        let ghost mut sb: BitStream = s0;
        let ghost mut rb: ByteReader = r0;
        let mut left = todo;
        assert(advanced(s0, r0, *stream, *reader, 0));
        let k = self.z_order[0];
        let comp = self.components[k];
        assert(comp == self.components@[k as int]);
        proof {
            lemma_match_at(self.components@, *g, g.ncomp as int, k as int);
        }
        assert(comp.horizontal_sample == g.samp_h(k as int) && comp.vertical_sample == g.samp_v(
            k as int,
        ));
        let table = if self.spec_start == 0 {
            get_table(&self.dc_huffman_tables, comp.dc_huff_table)
        } else {
            get_table(&self.ac_huffman_tables, comp.ac_huff_table)
        };
        let ghost tb = self.prog_table(k as int);
        assert(match table {
            Some(t) => tb == Some((t.spec_counts(), t.spec_values())),
            None => tb is None,
        });
        let bw = if k == 0 {
            g.mcu_x * g.h_max
        } else {
            g.mcu_x
        };
        let bh = if k == 0 {
            g.mcu_y * g.v_max
        } else {
            g.mcu_y
        };
        assert(bw == g.bw(k as int) && bh == g.bh(k as int));
        assert(g.width * comp.horizontal_sample <= 2 * 65535 && g.height * comp.vertical_sample
            <= 2 * 65535) by (nonlinear_arith)
            requires
                g.width <= 65535,
                g.height <= 65535,
                comp.horizontal_sample <= 2,
                comp.vertical_sample <= 2,
        ;
        // blocks of the component across and down
        let comp_w = (g.width * comp.horizontal_sample + g.h_max - 1) / g.h_max;
        let comp_h = (g.height * comp.vertical_sample + g.v_max - 1) / g.v_max;
        let blocks_w = if (comp_w + 7) / 8 < bw {
            (comp_w + 7) / 8
        } else {
            bw
        };
        let blocks_h = if (comp_h + 7) / 8 < bh {
            (comp_h + 7) / 8
        } else {
            bh
        };
        assert(single_extent(*self, *g, k as int) == (blocks_w as int, blocks_h as int));
        assert(blocks_w * blocks_h <= bw * bh && bw * bh <= 0x40_0000) by (nonlinear_arith)
            requires
                blocks_w <= bw,
                blocks_h <= bh,
                64 * bw * bh <= 0x1000_0000,
        ;
        let ghost total = blocks_w * blocks_h;
        let ghost p = scan_params(*self);
        let ghost run = prog_single_run(
            *g,
            bytes,
            ri,
            k as int,
            p,
            tb,
            blocks_w as int,
            blocks_h as int,
            0,
            ctx0,
            st0,
            s0.eob_run as int,
        );
        assert(0 * blocks_w == 0);
        let mut r: usize = 0;
        while r < blocks_h
            invariant
                self.wf(),
                g.wf(),
                k < g.ncomp,
                k < 3,
                k < self.components@.len(),
                bw == g.bw(k as int),
                bh == g.bh(k as int),
                blocks_w <= bw,
                blocks_h <= bh,
                blocks_w * blocks_h <= 0x40_0000,
                total == blocks_w * blocks_h,
                table matches Some(t) ==> t.wf(),
                match table {
                    Some(t) => tb == Some((t.spec_counts(), t.spec_values())),
                    None => tb is None,
                },
                r <= blocks_h,
                stream.successive_high == self.succ_high,
                stream.successive_low == self.succ_low,
                stream.spec_start == self.spec_start,
                stream.spec_end == self.spec_end,
                scan_step(
                    *g,
                    *old(stream),
                    *stream,
                    *old(reader),
                    *reader,
                    p0@,
                    p1@,
                    p2@,
                    self.components@.len() as int,
                    preds@,
                ),
                r0 == *old(reader),
                s0 == *old(stream),
                ctx0 == (s0.ahead(r0), s0.pending(r0), todo as int, true),
                st0 == (0int, old(preds)@, old(p0)@, old(p1)@, old(p2)@),
                r0.bytes() == old(reader).bytes(),
                r0.pos() == old(reader).pos(),
                bytes == r0.bytes(),
                ri == self.restart_interval,
                p == scan_params(*self),
                k == self.z_order[0],
                tb == self.prog_table(k as int),
                single_extent(*self, *g, k as int) == (blocks_w as int, blocks_h as int),
                run == prog_single_run(
                    *g,
                    bytes,
                    ri,
                    k as int,
                    p,
                    tb,
                    blocks_w as int,
                    blocks_h as int,
                    0,
                    ctx0,
                    st0,
                    s0.eob_run as int,
                ),
                ctx.3 ==> prog_single_run(
                    *g,
                    bytes,
                    ri,
                    k as int,
                    p,
                    tb,
                    blocks_w as int,
                    blocks_h as int,
                    r * blocks_w,
                    ctx,
                    (at, preds@, p0@, p1@, p2@),
                    stream.eob_run as int,
                ) == run,
                !ctx.3 ==> (run matches Some((cx, _, _)) && !cx.3),
                ctx.3 ==> ctx.2 == left && at >= 0,
                ctx.3 ==> stream.pending(*reader) == ctx.1,
                ctx.3 && r * blocks_w < total ==> reads_context(ctx, sb, rb, *stream, *reader, at),
            decreases blocks_h - r,
        {
            let mut c: usize = 0;
            while c < blocks_w
                invariant
                    self.wf(),
                    g.wf(),
                    k < g.ncomp,
                    k < 3,
                    k < self.components@.len(),
                    bw == g.bw(k as int),
                    bh == g.bh(k as int),
                    blocks_w <= bw,
                    blocks_h <= bh,
                    blocks_w * blocks_h <= 0x40_0000,
                    total == blocks_w * blocks_h,
                    r < blocks_h,
                    table matches Some(t) ==> t.wf(),
                    match table {
                        Some(t) => tb == Some((t.spec_counts(), t.spec_values())),
                        None => tb is None,
                    },
                    c <= blocks_w,
                    stream.successive_high == self.succ_high,
                    stream.successive_low == self.succ_low,
                    stream.spec_start == self.spec_start,
                    stream.spec_end == self.spec_end,
                    scan_step(
                        *g,
                        *old(stream),
                        *stream,
                        *old(reader),
                        *reader,
                        p0@,
                        p1@,
                        p2@,
                        self.components@.len() as int,
                        preds@,
                    ),
                    r0 == *old(reader),
                s0 == *old(stream),
                ctx0 == (s0.ahead(r0), s0.pending(r0), todo as int, true),
                st0 == (0int, old(preds)@, old(p0)@, old(p1)@, old(p2)@),
                r0.bytes() == old(reader).bytes(),
                    r0.pos() == old(reader).pos(),
                    bytes == r0.bytes(),
                    ri == self.restart_interval,
                    p == scan_params(*self),
                k == self.z_order[0],
                tb == self.prog_table(k as int),
                single_extent(*self, *g, k as int) == (blocks_w as int, blocks_h as int),
                    run == prog_single_run(
                        *g,
                        bytes,
                        ri,
                        k as int,
                        p,
                        tb,
                        blocks_w as int,
                        blocks_h as int,
                        0,
                        ctx0,
                        st0,
                        s0.eob_run as int,
                    ),
                    ctx.3 ==> prog_single_run(
                        *g,
                        bytes,
                        ri,
                        k as int,
                        p,
                        tb,
                        blocks_w as int,
                        blocks_h as int,
                        r * blocks_w + c,
                        ctx,
                        (at, preds@, p0@, p1@, p2@),
                        stream.eob_run as int,
                    ) == run,
                    !ctx.3 ==> (run matches Some((cx, _, _)) && !cx.3),
                    ctx.3 ==> ctx.2 == left && at >= 0,
                ctx.3 ==> stream.pending(*reader) == ctx.1,
                    ctx.3 && r * blocks_w + c < total ==> reads_context(
                        ctx,
                        sb,
                        rb,
                        *stream,
                        *reader,
                        at,
                    ),
                decreases blocks_w - c,
            {
                proof {
                    lemma_row_col(r as int, c as int, blocks_w as int, blocks_h as int);
                }
                let ghost n = r * blocks_w + c;
                let ghost live = ctx.3;
                let ghost sa = *stream;
                let ghost ra = *reader;
                let ghost cur: ScanState = (at, preds@, p0@, p1@, p2@);
                let ghost eob0 = stream.eob_run as int;
                let t = match table {
                    Some(t) => t,
                    None => {
                        assert(live ==> run is None);
                        return Err(
                            DecodeErrors::HuffmanDecode(message("Huffman table not initialized")),
                        );
                    },
                };
                let ghost tt = (t.spec_counts(), t.spec_values());
                let ghost blk = prog_scan_block(
                    *g,
                    ctx.0,
                    cur,
                    eob0,
                    k as int,
                    p,
                    tt,
                    n / blocks_w as int,
                    n % blocks_w as int,
                );
                let decoded = self.decode_prog_block(
                    g,
                    reader,
                    stream,
                    preds,
                    p0,
                    p1,
                    p2,
                    k,
                    r,
                    c,
                    t,
                    Ghost(if live {
                        sb
                    } else {
                        sa
                    }),
                    Ghost(if live {
                        rb
                    } else {
                        ra
                    }),
                    Ghost(if live {
                        at
                    } else {
                        0
                    }),
                );
                let end = match decoded {
                    Ok(e) => e,
                    Err(e) => {
                        assert(live ==> blk is Err);
                        assert(live ==> run is None);
                        return Err(e);
                    },
                };
                let ghost st1: ScanState = (end@, preds@, p0@, p1@, p2@);
                let ghost e1 = stream.eob_run as int;
                let ghost more = n + 1 < total;
                let ghost next = prog_unit_end(bytes, ri, more, ctx, st1, e1);
                let ghost restarted = count_after(ctx.2) == 0;
                proof {
                    if live {
                        assert(blk == Ok::<(ScanState, int), ()>((st1, e1)));
                        assert(run == match next {
                            None => None,
                            Some((c2, s2, e2)) => prog_single_run(
                                *g,
                                bytes,
                                ri,
                                k as int,
                                p,
                                tb,
                                blocks_w as int,
                                blocks_h as int,
                                n + 1,
                                c2,
                                s2,
                                e2,
                            ),
                        });
                    }
                }
                let ended = self.end_unit(
                    reader,
                    stream,
                    preds,
                    left,
                    Ghost(ctx),
                    Ghost(st1),
                    Ghost(more),
                    Ghost(sb),
                    Ghost(rb),
                );
                left = match ended {
                    Ok(l) => l,
                    Err(e) => {
                        assert(live ==> next is None);
                        assert(live ==> run is None);
                        return Err(e);
                    },
                };
                proof {
                    if live {
                        let (c2, s2, e2) = next.unwrap();
                        if restarted {
                            sb = *stream;
                            rb = *reader;
                        }
                        ctx = c2;
                        at = s2.0;
                    }
                }
                c += 1;
            }
            assert((r + 1) * blocks_w == r * blocks_w + blocks_w) by (nonlinear_arith);
            r += 1;
        }
        assert(blocks_h * blocks_w == blocks_w * blocks_h) by (nonlinear_arith);
        Ok(())
    }

    /// Decode the DC coefficients of an interleaved progressive scan MCU by
    /// MCU, `todo` MCUs before the first restart.
    #[verifier::spinoff_prover]
    #[verifier::rlimit(80)]
    fn decode_prog_interleaved(
        &self,
        g: &Geometry,
        reader: &mut ByteReader,
        stream: &mut BitStream,
        preds: &mut Vec<i32>,
        p0: &mut Vec<i16>,
        p1: &mut Vec<i16>,
        p2: &mut Vec<i16>,
        todo: usize,
    ) -> (res: Result<(), DecodeErrors>)
        requires
            self.wf(),
            g.wf(),
            self.matches_geometry(*g),
            plane_of(*g, 0, old(p0)@, old(p1)@, old(p2)@),
            old(preds)@.len() == self.components@.len(),
            old(stream).wf(),
            old(reader).wf(),
            old(stream).successive_high == self.succ_high,
            old(stream).successive_low == self.succ_low,
            old(stream).spec_start == self.spec_start,
            old(stream).spec_end == self.spec_end,
            self.num_scans != 1,
            self.spec_end == 0,
        ensures
            scan_step(
                *g,
                *old(stream),
                *final(stream),
                *old(reader),
                *final(reader),
                final(p0)@,
                final(p1)@,
                final(p2)@,
                self.components@.len() as int,
                final(preds)@,
            ),
            final(stream).successive_high == old(stream).successive_high,
            final(stream).successive_low == old(stream).successive_low,
            final(stream).spec_start == old(stream).spec_start,
            final(stream).spec_end == old(stream).spec_end,
            res matches Err(e) ==> (e is HuffmanDecode || e is MCUError),
            match prog_mcus_run(
                *self,
                *g,
                old(reader).bytes(),
                0,
                (old(stream).ahead(*old(reader)), old(stream).pending(*old(reader)), todo as int, true),
                (0, old(preds)@, old(p0)@, old(p1)@, old(p2)@),
            ) {
                None => res is Err,
                Some((c, st)) => c.3 ==> {
                    &&& res is Ok
                    &&& final(stream).pending(*final(reader)) == c.1
                    &&& final(p0)@ == st.2
                    &&& final(p1)@ == st.3
                    &&& final(p2)@ == st.4
                },
            },
    {
        proof {
            lemma_geometry_bounds(*g, 0);
            lemma_geometry_bounds(*g, 1);
            lemma_geometry_bounds(*g, 2);
        }
        let ghost s0 = *old(stream);
        let ghost r0 = *old(reader);
        let ghost bytes = r0.bytes();
        let ghost ri = self.restart_interval as int;
        let ghost ctx0: ScanContext = (s0.ahead(r0), s0.pending(r0), todo as int, true);
        let ghost st0: ScanState = (0int, old(preds)@, old(p0)@, old(p1)@, old(p2)@);
        let ghost mut ctx: ScanContext = ctx0;
        let ghost mut at: int = 0;
        let ghost mut sb: BitStream = s0;
        let ghost mut rb: ByteReader = r0;
        let mut left = todo;
        assert(advanced(s0, r0, *stream, *reader, 0));
        let ghost target = prog_mcus_run(*self, *g, bytes, 0, ctx0, st0);
        assert(self.spec_start == 0);
        let ghost total = g.mcu_x * g.mcu_y;
        assert(g.mcu_x * g.mcu_y <= 0x40_0000) by (nonlinear_arith)
            requires
                (8 * g.h_max * g.mcu_x) * (8 * g.v_max * g.mcu_y) <= 0x1000_0000,
                g.h_max >= 1,
                g.v_max >= 1,
        ;
        assert(0 * g.mcu_x == 0);
        let mut i: usize = 0;
        while i < g.mcu_y
            invariant
                self.wf(),
                g.wf(),
                self.matches_geometry(*g),
                self.num_scans != 1,
                self.spec_end == 0,
                self.spec_start == 0,
                i <= g.mcu_y,
                stream.successive_high == self.succ_high,
                stream.successive_low == self.succ_low,
                stream.spec_start == self.spec_start,
                stream.spec_end == self.spec_end,
                scan_step(
                    *g,
                    *old(stream),
                    *stream,
                    *old(reader),
                    *reader,
                    p0@,
                    p1@,
                    p2@,
                    self.components@.len() as int,
                    preds@,
                ),
                r0 == *old(reader),
                s0 == *old(stream),
                ctx0 == (s0.ahead(r0), s0.pending(r0), todo as int, true),
                st0 == (0int, old(preds)@, old(p0)@, old(p1)@, old(p2)@),
                r0.bytes() == old(reader).bytes(),
                r0.pos() == old(reader).pos(),
                bytes == r0.bytes(),
                ri == self.restart_interval,
                total == g.mcu_x * g.mcu_y,
                total <= 0x40_0000,
                target == prog_mcus_run(*self, *g, bytes, 0, ctx0, st0),
                ctx.3 ==> prog_mcus_run(*self, *g, bytes, i * g.mcu_x, ctx, (at, preds@, p0@, p1@, p2@))
                    == target,
                !ctx.3 ==> (target matches Some((cx, _)) && !cx.3),
                ctx.3 ==> ctx.2 == left && at >= 0,
                ctx.3 ==> stream.pending(*reader) == ctx.1,
                ctx.3 && i * g.mcu_x < total ==> reads_context(ctx, sb, rb, *stream, *reader, at),
            decreases g.mcu_y - i,
        {
            let mut j: usize = 0;
            while j < g.mcu_x
                invariant
                    self.wf(),
                    g.wf(),
                    self.matches_geometry(*g),
                    self.num_scans != 1,
                    self.spec_end == 0,
                    self.spec_start == 0,
                    i < g.mcu_y,
                    j <= g.mcu_x,
                    stream.successive_high == self.succ_high,
                    stream.successive_low == self.succ_low,
                    stream.spec_start == self.spec_start,
                    stream.spec_end == self.spec_end,
                    scan_step(
                        *g,
                        *old(stream),
                        *stream,
                        *old(reader),
                        *reader,
                        p0@,
                        p1@,
                        p2@,
                        self.components@.len() as int,
                        preds@,
                    ),
                    r0 == *old(reader),
                s0 == *old(stream),
                ctx0 == (s0.ahead(r0), s0.pending(r0), todo as int, true),
                st0 == (0int, old(preds)@, old(p0)@, old(p1)@, old(p2)@),
                r0.bytes() == old(reader).bytes(),
                    r0.pos() == old(reader).pos(),
                    bytes == r0.bytes(),
                    ri == self.restart_interval,
                    total == g.mcu_x * g.mcu_y,
                    total <= 0x40_0000,
                    target == prog_mcus_run(*self, *g, bytes, 0, ctx0, st0),
                    ctx.3 ==> prog_mcus_run(
                        *self,
                        *g,
                        bytes,
                        i * g.mcu_x + j,
                        ctx,
                        (at, preds@, p0@, p1@, p2@),
                    ) == target,
                    !ctx.3 ==> (target matches Some((cx, _)) && !cx.3),
                    ctx.3 ==> ctx.2 == left && at >= 0,
                ctx.3 ==> stream.pending(*reader) == ctx.1,
                    ctx.3 && i * g.mcu_x + j < total ==> reads_context(ctx, sb, rb, *stream, *reader, at),
                decreases g.mcu_x - j,
            {
                proof {
                    lemma_row_col(i as int, j as int, g.mcu_x as int, g.mcu_y as int);
                }
                let ghost m = i * g.mcu_x + j;
                let ghost live = ctx.3;
                let ghost before: ScanState = (at, preds@, p0@, p1@, p2@);
                let res_mcu = self.decode_prog_mcu(
                    g,
                    reader,
                    stream,
                    preds,
                    p0,
                    p1,
                    p2,
                    i,
                    j,
                    Ghost(sb),
                    Ghost(rb),
                    Ghost(if live {
                        at
                    } else {
                        0
                    }),
                    Ghost(live),
                );
                let end = match res_mcu {
                    Ok(e) => e,
                    Err(e) => {
                        assert(live ==> prog_mcu_blocks(
                            *self,
                            *g,
                            ctx.0,
                            before,
                            i as int,
                            j as int,
                            0,
                            0,
                            0,
                        ) is None);
                        assert(live ==> target is None);
                        return Err(e);
                    },
                };
                let ghost st1: ScanState = (end@, preds@, p0@, p1@, p2@);
                let ghost more = m + 1 < total;
                let ghost next = unit_end(bytes, ri, more, ctx, st1);
                let ghost restarted = count_after(ctx.2) == 0;
                proof {
                    if live {
                        assert(prog_mcu_blocks(
                            *self,
                            *g,
                            ctx.0,
                            before,
                            m / g.mcu_x as int,
                            m % g.mcu_x as int,
                            0,
                            0,
                            0,
                        ) == Some(st1));
                        assert(target == match next {
                            None => None,
                            Some((c2, s2)) => prog_mcus_run(*self, *g, bytes, m + 1, c2, s2),
                        });
                    }
                }
                // after every MCU, count down to the next restart
                let ended = self.end_unit(
                    reader,
                    stream,
                    preds,
                    left,
                    Ghost(ctx),
                    Ghost(st1),
                    Ghost(more),
                    Ghost(sb),
                    Ghost(rb),
                );
                left = match ended {
                    Ok(l) => l,
                    Err(e) => {
                        assert(live ==> next is None);
                        assert(live ==> target is None);
                        return Err(e);
                    },
                };
                proof {
                    if live {
                        let (c2, s2) = next.unwrap();
                        if restarted {
                            sb = *stream;
                            rb = *reader;
                        }
                        ctx = c2;
                        at = s2.0;
                    }
                }
                j += 1;
            }
            assert((i + 1) * g.mcu_x == i * g.mcu_x + g.mcu_x) by (nonlinear_arith);
            i += 1;
        }
        assert(g.mcu_y * g.mcu_x == g.mcu_x * g.mcu_y) by (nonlinear_arith);
        Ok(())
    }
}

impl Decoder {
    /// Decode the coefficients of one progressive scan into the planes.
    ///
    /// A scan of one component holds its blocks in row order: the DC
    /// coefficients (first or refinement scan) or a band of AC coefficients
    /// (first or refinement scan). A scan of several components holds DC
    /// coefficients only, MCU by MCU. A scan that mixes DC and AC
    /// coefficients is refused. The stream starts afresh at the reader's
    /// position, with zero DC predictions.
    pub fn parse_entropy_coded_data(
        &self,
        g: &Geometry,
        reader: &mut ByteReader,
        stream: &mut BitStream,
        p0: &mut Vec<i16>,
        p1: &mut Vec<i16>,
        p2: &mut Vec<i16>,
    ) -> (res: Result<(), DecodeErrors>)
        requires
            self.wf(),
            g.wf(),
            self.matches_geometry(*g),
            plane_of(*g, 0, old(p0)@, old(p1)@, old(p2)@),
            old(stream).wf(),
            old(reader).wf(),
            old(stream).successive_high == self.succ_high,
            old(stream).successive_low == self.succ_low,
            old(stream).spec_start == self.spec_start,
            old(stream).spec_end == self.spec_end,
        ensures
            final(stream).wf(),
            final(reader).wf(),
            final(reader).bytes() == old(reader).bytes(),
            old(reader).pos() <= final(reader).pos(),
            final(stream).successive_high == self.succ_high,
            final(stream).successive_low == self.succ_low,
            final(stream).spec_start == self.spec_start,
            final(stream).spec_end == self.spec_end,
            plane_of(*g, 0, final(p0)@, final(p1)@, final(p2)@),
            self.num_scans == 1 && self.spec_end != 0 && self.spec_start == 0 ==> (res matches Err(
                DecodeErrors::HuffmanDecode(m),
            ) && m@ == "Can't merge DC and AC corrupt jpeg"@),
            self.num_scans > 1 && self.spec_end != 0 ==> (res matches Err(
                DecodeErrors::HuffmanDecode(m),
            ) && m@ == "Can't merge dc and AC corrupt jpeg"@),
            self.spec_end != 0 && (self.num_scans > 1 || self.spec_start == 0) ==> {
                &&& *final(reader) == *old(reader)
                &&& final(p0)@ == old(p0)@
                &&& final(p1)@ == old(p1)@
                &&& final(p2)@ == old(p2)@
                &&& final(stream).marker is None
            },
            res matches Err(e) ==> (e is HuffmanDecode || e is MCUError),
            match prog_scan_run(
                *self,
                *g,
                old(reader).bytes(),
                old(reader).pos(),
                (0, Seq::new(self.components@.len(), |i: int| 0i32), old(p0)@, old(p1)@, old(p2)@),
            ) {
                None => res is Err,
                Some((c, st)) => c.3 ==> {
                    &&& res is Ok
                    &&& final(stream).pending(*final(reader)) == c.1
                    &&& final(p0)@ == st.2
                    &&& final(p1)@ == st.3
                    &&& final(p2)@ == st.4
                },
            },
    {
        stream.reset();
        proof {
            lemma_empty_stream_bits(*stream, *reader);
        }
        let mut preds: Vec<i32> = vec![0i32; self.components.len()];
        assert(preds@ =~= Seq::new(self.components@.len(), |i: int| 0i32));
        let todo: usize = if self.restart_interval == 0 {
            0x7fff_ffff
        } else {
            self.restart_interval
        };
        assert((stream.ahead(*reader), stream.pending(*reader), todo as int, true) == (
            segment_bits_at(reader.bytes(), reader.pos()),
            stop_at(reader.bytes(), reader.pos()),
            prog_count(*self),
            true,
        ));
        let ns = self.num_scans as usize;
        if ns == 1 {
            if self.spec_end != 0 && self.spec_start == 0 {
                return Err(DecodeErrors::HuffmanDecode(message("Can't merge DC and AC corrupt jpeg")));
            }
            let k = self.z_order[0];
            if k < g.ncomp {
                self.decode_prog_single(g, reader, stream, &mut preds, p0, p1, p2, todo)
            } else {
                Ok(())
            }
        } else {
            if self.spec_end != 0 {
                return Err(DecodeErrors::HuffmanDecode(message("Can't merge dc and AC corrupt jpeg")));
            }
            self.decode_prog_interleaved(g, reader, stream, &mut preds, p0, p1, p2, todo)
        }
    }
}

/// `d1` is the decoder `d0` with up-sampling routines chosen for its
/// components: nothing else of it differs.
pub open spec fn upsampling_chosen(d0: Decoder, d1: Decoder) -> bool {
    &&& d1 == (Decoder { components: d1.components, sub_sample_ratio: d1.sub_sample_ratio, ..d0 })
    &&& d1.components@.len() == d0.components@.len()
    &&& forall|i: int|
        0 <= i < d0.components@.len() ==> #[trigger] d1.components@[i] == (Components {
            up_sampler: d1.components@[i].up_sampler,
            ..d0.components@[i]
        })
}

/// The first progressive scan of the decoder `d0`, whose data starts at
/// `pos` of `bytes`, decodes without error and is determined by the data,
/// whatever up-sampling routines are chosen, and the marker that ends it is
/// neither a Huffman table nor a further scan: the image holds this one scan.
pub open spec fn is_lone_scan(d0: Decoder, bytes: Seq<u8>, pos: int) -> bool {
    forall|d1: Decoder, g: Geometry|
        #![trigger upsampling_chosen(d0, d1), frame_layout(d1, g)]
        upsampling_chosen(d0, d1) && frame_layout(d1, g) ==> (prog_scan_run(
            d1,
            g,
            bytes,
            pos,
            scan_start(d1, g),
        ) matches Some((c, st)) && c.3 && (c.1 matches Some((m, q)) && m != Marker::DHT && m
            != Marker::SOS))
}

/// The first progressive scan of the decoder `d0`, whose data starts at
/// `pos` of `bytes`, decodes without error and is determined by the data,
/// whatever up-sampling routines are chosen, but no marker follows it.
pub open spec fn is_unmarked_scan(d0: Decoder, bytes: Seq<u8>, pos: int) -> bool {
    forall|d1: Decoder, g: Geometry|
        #![trigger upsampling_chosen(d0, d1), frame_layout(d1, g)]
        upsampling_chosen(d0, d1) && frame_layout(d1, g) ==> (prog_scan_run(
            d1,
            g,
            bytes,
            pos,
            scan_start(d1, g),
        ) matches Some((c, st)) && c.3 && c.1 is None)
}

/// What the rest of a progressive image gives from the marker `m` on, read
/// up to `q` of `b`, for the decoder `d`, the frame geometry `g` and the
/// coefficient planes `p0`, `p1`, `p2` of the scans so far. A Huffman table
/// segment must be accepted and be followed by a marker; a scan header must
/// be accepted, and whatever state it may leave the decoder in, the scan
/// must decode without error and be followed by a marker. Any other marker
/// ends the image: its pixels, with the decoder, satisfy `k`.
#[verifier::opaque]
pub open spec fn prog_from(
    d: Decoder,
    g: Geometry,
    b: Seq<u8>,
    m: Marker,
    q: int,
    p0: Seq<i16>,
    p1: Seq<i16>,
    p2: Seq<i16>,
    k: spec_fn(Decoder, Seq<u8>) -> bool,
) -> bool
    decreases b.len() - q,
{
    if q < 0 || q > b.len() {
        false
    } else if m == Marker::DHT || m == Marker::SOS {
        forall|r: ByteReader|
            r.bytes() == b && r.pos() == q ==> {
                &&& #[trigger] marker_ok(d, r, m)
                &&& forall|d2: Decoder, r2: ByteReader|
                    #[trigger] marker_effect(d, r, m, d2, r2) ==> if m == Marker::DHT {
                        scan_marker(b, r2.pos()) matches Some((p, code)) && (spec_marker(code) matches Some(m2)
                            && q < p <= b.len() && prog_from(d2, g, b, m2, p, p0, p1, p2, k))
                    } else {
                        prog_scan_run(
                            d2,
                            g,
                            b,
                            r2.pos(),
                            (0, Seq::new(d2.components@.len(), |i: int| 0i32), p0, p1, p2),
                        ) matches Some((c, st)) && c.3 && (c.1 matches Some((m2, q2)) && q < q2 <= b.len() && prog_from(
                            d2,
                            g,
                            b,
                            m2,
                            q2,
                            st.2,
                            st.3,
                            st.4,
                            k,
                        ))
                    }
            }
    } else {
        k(
            d,
            decoded_pixels(
                g,
                p0,
                p1,
                p2,
                spec_qt(d, 0),
                spec_qt(d, 1),
                spec_qt(d, 2),
                d.input_colorspace,
                d.options.out_colorspace,
            ),
        )
    }
}

/// One step of `prog_from` at a Huffman table segment or a scan header: the
/// segment read by `r` is accepted, and where it leaves the decoder `d2` and
/// the reader `r2`, what follows gives the rest.
pub proof fn lemma_prog_step(
    d: Decoder,
    g: Geometry,
    b: Seq<u8>,
    m: Marker,
    p0: Seq<i16>,
    p1: Seq<i16>,
    p2: Seq<i16>,
    k: spec_fn(Decoder, Seq<u8>) -> bool,
    r: ByteReader,
    d2: Decoder,
    r2: ByteReader,
)
    requires
        prog_from(d, g, b, m, r.pos(), p0, p1, p2, k),
        m == Marker::DHT || m == Marker::SOS,
        r.bytes() == b,
    ensures
        marker_ok(d, r, m),
        marker_effect(d, r, m, d2, r2) && m == Marker::DHT ==> (scan_marker(b, r2.pos()) matches Some((p, code))
            && (spec_marker(code) matches Some(m2) && prog_from(d2, g, b, m2, p, p0, p1, p2, k))),
        marker_effect(d, r, m, d2, r2) && m == Marker::SOS ==> (prog_scan_run(
            d2,
            g,
            b,
            r2.pos(),
            (0, Seq::new(d2.components@.len(), |i: int| 0i32), p0, p1, p2),
        ) matches Some((c, st)) && c.3 && (c.1 matches Some((m2, q2)) && prog_from(
            d2,
            g,
            b,
            m2,
            q2,
            st.2,
            st.3,
            st.4,
            k,
        ))),
{
    reveal(prog_from);
    assert(marker_ok(d, r, m));
}

/// At a marker other than a Huffman table or a scan header, `prog_from`
/// asks `k` of the pixels of the planes.
pub proof fn lemma_prog_end(
    d: Decoder,
    g: Geometry,
    b: Seq<u8>,
    m: Marker,
    q: int,
    p0: Seq<i16>,
    p1: Seq<i16>,
    p2: Seq<i16>,
    k: spec_fn(Decoder, Seq<u8>) -> bool,
)
    requires
        prog_from(d, g, b, m, q, p0, p1, p2, k),
        !(m == Marker::DHT || m == Marker::SOS),
    ensures
        k(
            d,
            decoded_pixels(
                g,
                p0,
                p1,
                p2,
                spec_qt(d, 0),
                spec_qt(d, 1),
                spec_qt(d, 2),
                d.input_colorspace,
                d.options.out_colorspace,
            ),
        ),
{
    reveal(prog_from);
}

/// The scans of the progressive decoder `d0`, whose data starts at `pos` of
/// `bytes`, decode without error whatever up-sampling routines are chosen,
/// the first scan is followed by a marker, and the rest of the image gives
/// pixels that satisfy `k` (see `prog_from`).
pub open spec fn prog_decodes(
    d0: Decoder,
    bytes: Seq<u8>,
    pos: int,
    k: spec_fn(Decoder, Seq<u8>) -> bool,
) -> bool {
    forall|d1: Decoder, g: Geometry|
        #![trigger upsampling_chosen(d0, d1), frame_layout(d1, g)]
        upsampling_chosen(d0, d1) && frame_layout(d1, g) ==> (prog_scan_run(
            d1,
            g,
            bytes,
            pos,
            scan_start(d1, g),
        ) matches Some((c, st)) && c.3 && (c.1 matches Some((m, q)) && prog_from(
            d1,
            g,
            bytes,
            m,
            q,
            st.2,
            st.3,
            st.4,
            k,
        )))
}

/// Zeroed coefficient planes for the decoded components of a geometry.
pub fn alloc_planes(g: &Geometry) -> (planes: (Vec<i16>, Vec<i16>, Vec<i16>))
    requires
        g.wf(),
    ensures
        plane_of(*g, 0, planes.0@, planes.1@, planes.2@),
        planes.0@ == Seq::new(g.plane_len(0) as nat, |i: int| 0i16),
        planes.1@ == if g.ncomp == 3 {
            Seq::new(g.plane_len(1) as nat, |i: int| 0i16)
        } else {
            Seq::<i16>::empty()
        },
        planes.2@ == if g.ncomp == 3 {
            Seq::new(g.plane_len(2) as nat, |i: int| 0i16)
        } else {
            Seq::<i16>::empty()
        },
{
    proof {
        lemma_geometry_bounds(*g, 0);
        lemma_geometry_bounds(*g, 1);
    }
    let bw0 = g.mcu_x * g.h_max;
    let bh0 = g.mcu_y * g.v_max;
    assert(bw0 == g.bw(0) && bh0 == g.bh(0) && g.mcu_x == g.bw(1) && g.mcu_y == g.bh(1));
    assert(64 * bw0 <= 64 * bw0 * bh0 && 64 * g.mcu_x <= 64 * g.mcu_x * g.mcu_y) by (nonlinear_arith)
        requires
            bh0 >= 1,
            g.mcu_y >= 1,
    ;
    let len0 = 64 * bw0 * bh0;
    let len1 = 64 * g.mcu_x * g.mcu_y;
    let p0: Vec<i16> = vec![0i16; len0];
    let p1: Vec<i16> = if g.ncomp == 3 {
        vec![0i16; len1]
    } else {
        Vec::new()
    };
    let p2: Vec<i16> = if g.ncomp == 3 {
        vec![0i16; len1]
    } else {
        Vec::new()
    };
    (p0, p1, p2)
}

impl Decoder {
    /// Post process the coefficients of all the scans into pixels, with the
    /// components' quantization tables, for the frame's size and sampling.
    ///
    /// Fails when the sampling factors are not one or two each way, or when
    /// the frame has no layout this decoder handles (see `frame_fits`).
    pub fn finish_progressive_decoding(
        &self,
        p0: Vec<i16>,
        p1: Vec<i16>,
        p2: Vec<i16>,
    ) -> (res: Result<Vec<u8>, DecodeErrors>)
        requires
            self.wf(),
            self.frame_fits() ==> plane_of(frame_geom(*self), 0, p0@, p1@, p2@),
            self.spec_decoded_components() == 1 ==> !needs_chroma(
                self.input_colorspace,
                self.options.out_colorspace,
            ),
        ensures
            !supported_sampling(self.h_max, self.v_max) ==> (res matches Err(DecodeErrors::Format(m))
                && m@ == "Unknown down-sampling method, cannot continue"@),
            res is Ok <==> self.frame_fits(),
            res matches Ok(out) ==> out@.len() == self.info.width * self.info.height * spec_num_components(
                self.options.out_colorspace,
            ),
            res matches Ok(out) ==> out@ == decoded_pixels(
                frame_geom(*self),
                p0@,
                p1@,
                p2@,
                spec_qt(*self, 0),
                spec_qt(*self, 1),
                spec_qt(*self, 2),
                self.input_colorspace,
                self.options.out_colorspace,
            ),
    {
        if !((self.h_max == 1 || self.h_max == 2) && (self.v_max == 1 || self.v_max == 2)) {
            return Err(DecodeErrors::Format(message("Unknown down-sampling method, cannot continue")));
        }
        let g = match self.frame_geometry() {
            Ok(g) => g,
            Err(e) => {
                return Err(e);
            },
        };
        proof {
            lemma_frame_layout_unique(*self, g);
        }
        let qt0 = self.qt_of(0);
        let qt1 = self.qt_of(1);
        let qt2 = self.qt_of(2);
        Ok(
            post_process_prog(
                &g,
                &p0,
                &p1,
                &p2,
                &qt0,
                &qt1,
                &qt2,
                self.input_colorspace,
                self.options.out_colorspace,
            ),
        )
    }

    /// Decode the scans of a progressive image and carry out post processing.
    ///
    /// After the first scan, Huffman tables and further scans follow until
    /// the end of the image; any other marker ends the decoding too.
    pub fn decode_mcu_ycbcr_progressive(&mut self, reader: &mut ByteReader) -> (res: Result<
        Vec<u8>,
        DecodeErrors,
    >)
        requires
            old(self).wf(),
            old(reader).wf(),
            old(self).is_progressive,
        ensures
            final(self).wf(),
            final(reader).wf(),
            final(reader).bytes() == old(reader).bytes(),
            final(self).info == old(self).info,
            res matches Ok(v) ==> v@.len() == old(self).info.width * old(self).info.height
                * spec_num_components(final(self).options.out_colorspace),
            res matches Ok(v) ==> is_decoded_image(*final(self), v@),
            final(self).is_progressive,
            final(self).options == old(self).options || final(self).options == (ZuneJpegOptions {
                out_colorspace: ColorSpace::GRAYSCALE,
                ..old(self).options
            }),
            res is Ok ==> prepared_ok(*old(self)),
            !(exists|y: int| old(self).dimensions_agree(y)) ==> res is Err && *final(reader) == *old(reader)
                && *final(self) == *old(self),
            (forall|y: int|
                0 <= y < old(self).components@.len() ==> #[trigger] old(self).components@[y].component_id
                    != ComponentID::Y) ==> res == Err::<Vec<u8>, DecodeErrors>(
                DecodeErrors::FormatStatic("Could not find Y component for the image"),
            ),
            (exists|y: int| old(self).dimensions_agree(y)) && old(self).interleaved && !supported_sampling(
                old(self).h_max,
                old(self).v_max,
            ) ==> (res matches Err(DecodeErrors::Format(m)) && m@
                == "Unknown down-sampling method, cannot continue"@) && *final(reader) == *old(reader)
                && *final(self) == *old(self),
            prepared_ok(*old(self)) && !(old(self).input_colorspace == ColorSpace::GRAYSCALE
                && old(self).interleaved) && old(self).frame_fits() && is_unmarked_scan(
                *old(self),
                old(reader).bytes(),
                old(reader).pos(),
            ) ==> (res matches Err(DecodeErrors::Format(m)) && m@ == "Marker missing where expected"@),
            prepared_ok(*old(self)) && !(old(self).input_colorspace == ColorSpace::GRAYSCALE
                && old(self).interleaved) && old(self).frame_fits() && is_lone_scan(
                *old(self),
                old(reader).bytes(),
                old(reader).pos(),
            ) ==> res is Ok,
            forall|k: spec_fn(Decoder, Seq<u8>) -> bool|
                prepared_ok(*old(self)) && !(old(self).input_colorspace == ColorSpace::GRAYSCALE
                    && old(self).interleaved) && old(self).frame_fits() && #[trigger] prog_decodes(
                    *old(self),
                    old(reader).bytes(),
                    old(reader).pos(),
                    k,
                ) ==> (res matches Ok(v) && k(*final(self), v@)),
    {
        match self.check_component_dimensions() {
            Ok(()) => {},
            Err(e) => {
                return Err(e);
            },
        }
        if self.interleaved {
            self.set_upsampling()?;
        }
        assert(upsampling_chosen(*old(self), *self));
        if self.input_colorspace == ColorSpace::GRAYSCALE && self.interleaved {
            self.reset_downsampled_grayscale();
        }
        let ghost pre = prepared_ok(*old(self)) && !(old(self).input_colorspace == ColorSpace::GRAYSCALE
            && old(self).interleaved) && old(self).frame_fits();
        let ghost unmarked = prepared_ok(*old(self)) && !(old(self).input_colorspace == ColorSpace::GRAYSCALE
            && old(self).interleaved) && old(self).frame_fits() && is_unmarked_scan(
            *old(self),
            old(reader).bytes(),
            old(reader).pos(),
        );
        let ghost lone = prepared_ok(*old(self)) && !(old(self).input_colorspace == ColorSpace::GRAYSCALE
            && old(self).interleaved) && old(self).frame_fits() && is_lone_scan(
            *old(self),
            old(reader).bytes(),
            old(reader).pos(),
        );
        proof {
            if pre {
                assert(upsampling_chosen(*old(self), *self));
                assert forall|k: int| 0 <= k < self.spec_decoded_components() implies #[trigger] self.sampled_for_frame(k) by {
                    assert(old(self).sampled_for_frame(k));
                    assert(self.components@[k] == (Components {
                        up_sampler: self.components@[k].up_sampler,
                        ..old(self).components@[k]
                    }));
                }
                assert(self.frame_fits());
            }
        }
        let g = self.frame_geometry()?;
        let in_cs = self.input_colorspace;
        let (mut p0, mut p1, mut p2) = alloc_planes(&g);
        assert((0int, Seq::new(self.components@.len(), |i: int| 0i32), p0@, p1@, p2@) == scan_start(*self, g));
        assert(pre ==> frame_layout(*self, g));
        let mut stream = BitStream::new_progressive(
            self.succ_high,
            self.succ_low,
            self.spec_start,
            self.spec_end,
        );
        self.parse_entropy_coded_data(&g, reader, &mut stream, &mut p0, &mut p1, &mut p2)?;
        let mut marker = match get_marker(reader, &mut stream) {
            Some(m) => m,
            None => {
                return Err(DecodeErrors::Format(message("Marker missing where expected")));
            },
        };
        let ghost opts0 = self.options;
        while marker == Marker::DHT || marker == Marker::SOS
            invariant
                exists|y: int| old(self).dimensions_agree(y),
                !unmarked,
                self.frame_fits(),
                old(self).interleaved ==> supported_sampling(old(self).h_max, old(self).v_max),
                pre == (prepared_ok(*old(self)) && !(old(self).input_colorspace == ColorSpace::GRAYSCALE
                    && old(self).interleaved) && old(self).frame_fits()),
                forall|k: spec_fn(Decoder, Seq<u8>) -> bool|
                    pre && #[trigger] prog_decodes(*old(self), old(reader).bytes(), old(reader).pos(), k)
                        ==> prog_from(*self, g, reader.bytes(), marker, reader.pos(), p0@, p1@, p2@, k),
                unmarked == (prepared_ok(*old(self)) && !(old(self).input_colorspace == ColorSpace::GRAYSCALE
                    && old(self).interleaved) && old(self).frame_fits() && is_unmarked_scan(
                    *old(self),
                    old(reader).bytes(),
                    old(reader).pos(),
                )),
                lone ==> !(marker == Marker::DHT || marker == Marker::SOS),
                lone == (prepared_ok(*old(self)) && !(old(self).input_colorspace == ColorSpace::GRAYSCALE
                    && old(self).interleaved) && old(self).frame_fits() && is_lone_scan(
                    *old(self),
                    old(reader).bytes(),
                    old(reader).pos(),
                )),
                self.wf(),
                g.wf(),
                self.matches_geometry(g),
                g.width == self.info.width,
                g.height == self.info.height,
                g.ncomp == (if in_cs == ColorSpace::GRAYSCALE {
                    1usize
                } else {
                    3usize
                }),
                plane_of(g, 0, p0@, p1@, p2@),
                stream.wf(),
                reader.wf(),
                reader.bytes() == old(reader).bytes(),
                self.info == old(self).info,
                self.options == opts0,
                opts0 == old(self).options || opts0 == (ZuneJpegOptions {
                    out_colorspace: ColorSpace::GRAYSCALE,
                    ..old(self).options
                }),
                self.input_colorspace == in_cs,
                self.is_progressive,
                g.h_max == self.h_max,
                g.v_max == self.v_max,
                in_cs != ColorSpace::GRAYSCALE ==> self.components@.len() >= 3,
            decreases reader.remaining(),
        {
            let ghost d_b = *self;
            let ghost r_b = *reader;
            let ghost q_b = (p0@, p1@, p2@);
            let ghost marker_b = marker;
            let ghost mut r_a = *reader;
            if marker == Marker::DHT {
                match parse_huffman(self, reader) {
                    Ok(()) => {},
                    Err(e) => {
                        proof {
                            assert forall|k: spec_fn(Decoder, Seq<u8>) -> bool|
                                pre && #[trigger] prog_decodes(*old(self), old(reader).bytes(), old(reader).pos(), k)
                                    implies false by {
                                lemma_prog_step(d_b, g, r_b.bytes(), marker, q_b.0, q_b.1, q_b.2, k, r_b, d_b, r_b);
                            }
                        }
                        return Err(e);
                    },
                }
                proof {
                    r_a = *reader;
                }
                // the next marker is looked for in the data after the table
                stream.reset();
            } else {
                let ghost before = self.components@;
                match parse_sos(reader, self) {
                    Ok(()) => {},
                    Err(e) => {
                        proof {
                            assert forall|k: spec_fn(Decoder, Seq<u8>) -> bool|
                                pre && #[trigger] prog_decodes(*old(self), old(reader).bytes(), old(reader).pos(), k)
                                    implies false by {
                                lemma_prog_step(d_b, g, r_b.bytes(), marker, q_b.0, q_b.1, q_b.2, k, r_b, d_b, r_b);
                            }
                        }
                        return Err(e);
                    },
                }
                assert(self.frame_fits()) by {
                    assert forall|k: int| 0 <= k < self.spec_decoded_components() implies #[trigger] self.sampled_for_frame(k) by {
                        assert(d_b.sampled_for_frame(k));
                        assert(self.components@[k].horizontal_sample == before[k].horizontal_sample);
                        assert(self.components@[k].vertical_sample == before[k].vertical_sample);
                    }
                }
                assert(components_match(self.components@, g, g.ncomp as int)) by {
                    assert forall|k: int| 0 <= k < g.ncomp implies #[trigger] self.components@[k].horizontal_sample
                        == g.samp_h(k) && self.components@[k].vertical_sample == g.samp_v(k) by {
                        assert(before[k].horizontal_sample == g.samp_h(k) && before[k].vertical_sample
                            == g.samp_v(k));
                    }
                }
                stream.update_progressive_params(
                    self.succ_high,
                    self.succ_low,
                    self.spec_start,
                    self.spec_end,
                );
                proof {
                    r_a = *reader;
                }
                match self.parse_entropy_coded_data(&g, reader, &mut stream, &mut p0, &mut p1, &mut p2) {
                    Ok(()) => {},
                    Err(e) => {
                        proof {
                            assert forall|k: spec_fn(Decoder, Seq<u8>) -> bool|
                                pre && #[trigger] prog_decodes(*old(self), old(reader).bytes(), old(reader).pos(), k)
                                    implies false by {
                                lemma_prog_step(d_b, g, r_b.bytes(), marker, q_b.0, q_b.1, q_b.2, k, r_b, *self, r_a);
                            }
                        }
                        return Err(e);
                    },
                }
            }
            let ghost d_a = *self;
            marker = match get_marker(reader, &mut stream) {
                Some(m) => m,
                None => {
                    proof {
                        assert forall|k: spec_fn(Decoder, Seq<u8>) -> bool|
                            pre && #[trigger] prog_decodes(*old(self), old(reader).bytes(), old(reader).pos(), k)
                                implies false by {
                            lemma_prog_step(d_b, g, r_b.bytes(), marker, q_b.0, q_b.1, q_b.2, k, r_b, d_a, r_a);
                        }
                    }
                    return Err(DecodeErrors::Format(message("Marker missing where expected")));
                },
            };
            proof {
                assert forall|k: spec_fn(Decoder, Seq<u8>) -> bool|
                    pre && #[trigger] prog_decodes(*old(self), old(reader).bytes(), old(reader).pos(), k)
                        implies prog_from(*self, g, reader.bytes(), marker, reader.pos(), p0@, p1@, p2@, k) by {
                    lemma_prog_step(d_b, g, r_b.bytes(), marker_b, q_b.0, q_b.1, q_b.2, k, r_b, d_a, r_a);
                }
            }
        }
        let ghost planes = (p0@, p1@, p2@);
        proof {
            lemma_frame_layout_unique(*self, g);
        }
        let out = match self.finish_progressive_decoding(p0, p1, p2) {
            Ok(out) => out,
            Err(e) => {
                return Err(e);
            },
        };
        assert(decoded_pixels(
            g,
            planes.0,
            planes.1,
            planes.2,
            spec_qt(*self, 0),
            spec_qt(*self, 1),
            spec_qt(*self, 2),
            self.input_colorspace,
            self.options.out_colorspace,
        ) == out@);
        proof {
            assert forall|k: spec_fn(Decoder, Seq<u8>) -> bool|
                pre && #[trigger] prog_decodes(*old(self), old(reader).bytes(), old(reader).pos(), k) implies k(
                *self,
                out@,
            ) by {
                lemma_prog_end(*self, g, reader.bytes(), marker, reader.pos(), planes.0, planes.1, planes.2, k);
            }
        }
        Ok(out)
    }
}

} // verus!
