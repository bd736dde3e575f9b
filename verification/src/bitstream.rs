//! This file exposes a single struct that can decode a huffman encoded
//! Bitstream in a JPEG file
//!
//! The entropy coded data of a scan is a sequence of bytes in which a `0xFF`
//! data byte is followed by a stuffed `0x00`, runs of `0xFF` are fill bytes and
//! `0xFF` followed by anything else is a marker. Once a marker (or the end of
//! the data) is reached, the stream behaves as if it continued with zero bits.
use vstd::prelude::*;
use vstd::arithmetic::power2::*;

use crate::errors::{message, DecodeErrors};
use crate::huffman::{
    decode_length_from, canonical_code, spec_fast_ac_entry, code_length, count_of, first_code, first_index, lemma_canonical_code_bounds, lemma_decode_inverts_code,
    lemma_decode_length_from_is, lemma_decode_length_from_none, lemma_first_index_monotone,
    lemma_first_index_nonneg, lemma_window_start, next_code, spec_huff_decode, total_symbols,
    HuffmanTable,
};
use crate::marker::{spec_marker, Marker};
use crate::misc::{
    lemma_un_zigzag_in_block, lemma_un_zigzag_injective, lemma_un_zigzag_tail, lemma_zigzag_inverse, spec_zigzag_of, ByteReader,
    UN_ZIGZAG,
};

verus! {

// ---------------------------------------------------------------------------
// Entropy coded bytes
// ---------------------------------------------------------------------------
/// The byte at `i`, or zero past the end of the data.
pub open spec fn byte_or_zero(bytes: Seq<u8>, i: int) -> u8 {
    if 0 <= i < bytes.len() {
        bytes[i]
    } else {
        0
    }
}

/// Position of the first byte at or after `q` that is not a `0xFF` fill byte.
pub open spec fn skip_fill(bytes: Seq<u8>, q: int) -> int
    decreases bytes.len() - q,
{
    if q < bytes.len() && bytes[q] == 0xFF {
        skip_fill(bytes, q + 1)
    } else {
        q
    }
}

/// The next data byte of an entropy coded segment starting at `pos`: the byte,
/// the position after it, and the marker byte that ends the segment there, if
/// one does. A stuffed `0xFF 0x00` is the data byte `0xFF`; fill bytes between
/// a `0xFF` and what follows are skipped; a marker or the end of the data
/// yields a zero byte.
pub open spec fn spec_next_data_byte(bytes: Seq<u8>, pos: int) -> (u8, int, Option<u8>) {
    if pos >= bytes.len() {
        (0, pos, None)
    } else if bytes[pos] != 0xFF {
        (bytes[pos], pos + 1, None)
    } else {
        let q = skip_fill(bytes, pos + 1);
        let next = byte_or_zero(bytes, q);
        if next == 0 {
            (0xFF, if q < bytes.len() { q + 1 } else { q }, None)
        } else {
            (0, q + 1, Some(next))
        }
    }
}

/// The marker found by scanning `bytes` from `pos`: a `0xFF`, fill bytes,
/// then a byte other than zero, which is the marker's code, with the
/// position after it; a `0xFF` followed by a zero is skipped. `None` when the
/// data ends first.
pub open spec fn scan_marker(bytes: Seq<u8>, pos: int) -> Option<(int, u8)>
    decreases bytes.len() - pos,
{
    if pos < 0 || pos >= bytes.len() {
        None
    } else if bytes[pos] != 0xFF {
        scan_marker(bytes, pos + 1)
    } else {
        let q = skip_fill(bytes, pos + 1);
        if q >= bytes.len() || q <= pos {
            None
        } else if bytes[q] != 0 {
            Some((q + 1, bytes[q]))
        } else {
            scan_marker(bytes, q + 1)
        }
    }
}

/// The marker that ends the entropy coded segment read from `pos`, with the
/// position after it; `None` when the data ends first or the code that ends
/// the segment is not a marker's.
pub open spec fn stop_at(bytes: Seq<u8>, pos: int) -> Option<(Marker, int)> {
    match scan_marker(bytes, pos) {
        Some((q, c)) => match spec_marker(c) {
            Some(m) => Some((m, q)),
            None => None,
        },
        None => None,
    }
}

pub proof fn lemma_skip_fill_bounds(bytes: Seq<u8>, q: int)
    requires
        0 <= q,
    ensures
        q <= skip_fill(bytes, q),
        q <= bytes.len() ==> skip_fill(bytes, q) <= bytes.len(),
        skip_fill(bytes, q) < bytes.len() ==> bytes[skip_fill(bytes, q)] != 0xFF,
    decreases bytes.len() - q,
{
    if q < bytes.len() && bytes[q] == 0xFF {
        lemma_skip_fill_bounds(bytes, q + 1);
    }
}

/// Sign-extend the `s` magnitude bits `x` of a coefficient (JPEG's EXTEND).
pub open spec fn spec_extend(x: int, s: int) -> int {
    if x < pow2((s - 1) as nat) {
        x - pow2(s as nat) + 1
    } else {
        x
    }
}

// ---------------------------------------------------------------------------
// The bits ahead of a stream
// ---------------------------------------------------------------------------
/// The `k`-th data byte an entropy coded segment delivers from `pos` on (zero
/// bytes once it has ended).
pub open spec fn data_byte(bytes: Seq<u8>, pos: int, ended: bool, k: nat) -> u8
    decreases k,
{
    if ended {
        0
    } else {
        let (d, p, m) = spec_next_data_byte(bytes, pos);
        if k == 0 {
            d
        } else {
            data_byte(bytes, p, m is Some || p >= bytes.len(), (k - 1) as nat)
        }
    }
}

/// Bit `e` (counting from the least significant) of `x`, as 0 or 1.
pub open spec fn bit_of(x: int, e: int) -> int {
    (x / pow2(e as nat) as int) % 2
}

/// The integer made of the `n` bits of `src` from `start` on, the first the
/// most significant.
pub open spec fn bits_value(src: spec_fn(int) -> int, start: int, n: nat) -> int
    decreases n,
{
    if n == 0 {
        0
    } else {
        bits_value(src, start, (n - 1) as nat) * 2 + src(start + n - 1)
    }
}

/// The bits of `src` are 0 or 1.
pub open spec fn is_bits(src: spec_fn(int) -> int) -> bool {
    forall|i: int| 0 <= #[trigger] src(i) <= 1
}

/// `n` bits of `src` fit `n` bits.
pub proof fn lemma_bits_value_bounds(src: spec_fn(int) -> int, start: int, n: nat)
    requires
        is_bits(src),
    ensures
        0 <= bits_value(src, start, n) < pow2(n),
    decreases n,
{
    if n > 0 {
        lemma_bits_value_bounds(src, start, (n - 1) as nat);
        lemma_pow2_unfold(n);
    } else {
        lemma2_to64();
    }
}

/// `a + b` bits are the first `a` followed by the next `b`.
pub proof fn lemma_bits_value_split(src: spec_fn(int) -> int, start: int, a: nat, b: nat)
    ensures
        bits_value(src, start, a + b) == bits_value(src, start, a) * pow2(b) as int + bits_value(
            src,
            start + a,
            b,
        ),
    decreases b,
{
    if b == 0 {
        lemma2_to64();
    } else {
        lemma_bits_value_split(src, start, a, (b - 1) as nat);
        lemma_pow2_unfold(b);
        assert(bits_value(src, start, a + b) == bits_value(src, start, (a + b - 1) as nat) * 2 + src(
            start + a + b - 1,
        ));
        assert(bits_value(src, start + a, b) == bits_value(src, start + a, (b - 1) as nat) * 2 + src(
            start + a + b - 1,
        ));
        assert(bits_value(src, start, a) * pow2((b - 1) as nat) as int * 2 == bits_value(src, start, a)
            * pow2(b) as int) by (nonlinear_arith)
            requires
                pow2(b) == 2 * pow2((b - 1) as nat),
        ;
    }
}

/// Bits that agree give the same value.
pub proof fn lemma_bits_value_shift(f: spec_fn(int) -> int, g: spec_fn(int) -> int, a: int, n: int, m: nat)
    requires
        forall|i: int| a <= i < a + m ==> #[trigger] f(i) == g(i + n),
    ensures
        bits_value(f, a, m) == bits_value(g, a + n, m),
    decreases m,
{
    if m > 0 {
        lemma_bits_value_shift(f, g, a, n, (m - 1) as nat);
        assert(f(a + m - 1) == g(a + m - 1 + n));
    }
}

// ---------------------------------------------------------------------------
// The bit stream
// ---------------------------------------------------------------------------
/// A `BitStream` struct, capable of decoding compressed data from the data from
/// image
pub struct BitStream {
    /// The bits not yet consumed; the first of them is the most significant
    /// of the `bits_left` low bits
    pub buffer: u64,
    /// Number of bits held in `buffer`
    pub bits_left: u8,
    /// Did we find a marker(RST/EOF) during decoding?
    pub marker: Option<Marker>,
    /// The entropy coded data ended (at a marker or the end of the data);
    /// further refills add zero bits
    pub no_more: bool,
    /// Progressive decoding: successive approximation bit position high
    pub successive_high: u8,
    /// Progressive decoding: successive approximation bit position low
    pub successive_low: u8,
    /// Start of spectral selection
    pub spec_start: u8,
    /// End of spectral selection
    pub spec_end: u8,
    /// Number of blocks left in an end-of-band run
    pub eob_run: i32,
}

impl BitStream {
    /// The integer made of the bits held, first bit most significant.
    pub open spec fn held(&self) -> int {
        self.buffer as int
    }

    /// Number of bits held.
    pub open spec fn num_bits(&self) -> int {
        self.bits_left as int
    }

    /// Whether the entropy coded data has ended.
    pub open spec fn ended(&self) -> bool {
        self.no_more
    }

    /// The held bits fit their count and the count fits the buffer.
    pub open spec fn wf(&self) -> bool {
        &&& self.bits_left <= 64
        &&& (self.buffer as int) < pow2(self.bits_left as nat)
        &&& self.marker is Some ==> self.no_more
    }

    /// The first `n` of the held bits as an integer.
    pub open spec fn spec_peek(&self, n: int) -> int {
        self.held() / pow2((self.num_bits() - n) as nat) as int
    }

    /// Bit `i` (0 or 1) of the bits ahead of the stream reading from `r`: the
    /// held bits, then those of the data bytes still to come, each byte most
    /// significant bit first.
    pub open spec fn bit_ahead(&self, r: ByteReader, i: int) -> int {
        if i < self.num_bits() {
            bit_of(self.held(), self.num_bits() - 1 - i)
        } else {
            let j = i - self.num_bits();
            bit_of(data_byte(r.bytes(), r.pos(), self.ended(), (j / 8) as nat) as int, 7 - j % 8)
        }
    }

    /// The bits ahead of the stream reading from `r`.
    pub open spec fn ahead(&self, r: ByteReader) -> spec_fn(int) -> int {
        |i: int| self.bit_ahead(r, i)
    }

    /// The marker that ends the segment the stream reads from `r`, with the
    /// position after it: the one the stream ran into, or else the one ahead
    /// in the data (see `stop_at`).
    pub open spec fn pending(&self, r: ByteReader) -> Option<(Marker, int)> {
        if !self.ended() {
            stop_at(r.bytes(), r.pos())
        } else {
            match self.marker {
                Some(m) => Some((m, r.pos())),
                None => None,
            }
        }
    }

    /// Create a new BitStream
    pub fn new() -> (s: BitStream)
        ensures
            s.wf(),
            s.num_bits() == 0,
            !s.ended(),
            s.marker is None,
            s.successive_high == 0 && s.successive_low == 0 && s.spec_start == 0 && s.spec_end == 0,
            s.eob_run == 0,
    {
        proof {
            lemma2_to64();
        }
        BitStream {
            buffer: 0,
            bits_left: 0,
            marker: None,
            no_more: false,
            successive_high: 0,
            successive_low: 0,
            spec_start: 0,
            spec_end: 0,
            eob_run: 0,
        }
    }

    /// Create a new Bitstream for progressive decoding
    pub fn new_progressive(ah: u8, al: u8, spec_start: u8, spec_end: u8) -> (s: BitStream)
        ensures
            s.wf(),
            s.num_bits() == 0,
            !s.ended(),
            s.marker is None,
            s.successive_high == ah && s.successive_low == al && s.spec_start == spec_start
                && s.spec_end == spec_end,
            s.eob_run == 0,
    {
        proof {
            lemma2_to64();
        }
        BitStream {
            buffer: 0,
            bits_left: 0,
            marker: None,
            no_more: false,
            successive_high: ah,
            successive_low: al,
            spec_start,
            spec_end,
            eob_run: 0,
        }
    }

    /// Set the parameters of the next progressive scan.
    pub fn update_progressive_params(&mut self, ah: u8, al: u8, spec_start: u8, spec_end: u8)
        requires
            old(self).wf(),
        ensures
            final(self).wf(),
            final(self).held() == old(self).held(),
            final(self).num_bits() == old(self).num_bits(),
            final(self).ended() == old(self).ended(),
            final(self).marker == old(self).marker,
            final(self).eob_run == old(self).eob_run,
            final(self).successive_high == ah && final(self).successive_low == al
                && final(self).spec_start == spec_start && final(self).spec_end == spec_end,
    {
        self.successive_high = ah;
        self.successive_low = al;
        self.spec_start = spec_start;
        self.spec_end = spec_end;
    }

    /// Read the next data byte of the entropy coded segment; zero once the
    /// segment has ended. A marker that ends the segment is recorded.
    fn next_data_byte(&mut self, reader: &mut ByteReader) -> (b: u8)
        requires
            old(self).wf(),
            old(reader).wf(),
        ensures
            final(self).wf(),
            final(reader).wf(),
            final(reader).bytes() == old(reader).bytes(),
            old(reader).pos() <= final(reader).pos(),
            final(self).held() == old(self).held(),
            final(self).num_bits() == old(self).num_bits(),
            final(self).successive_high == old(self).successive_high,
            final(self).successive_low == old(self).successive_low,
            final(self).spec_start == old(self).spec_start,
            final(self).spec_end == old(self).spec_end,
            final(self).eob_run == old(self).eob_run,
            final(self).pending(*final(reader)) == old(self).pending(*old(reader)),
            old(self).ended() ==> b == 0 && final(reader).pos() == old(reader).pos() && final(self).ended() && final(self).marker == old(self).marker,
            !old(self).ended() ==> {
                let (d, p, m) = spec_next_data_byte(old(reader).bytes(), old(reader).pos());
                &&& b == d
                &&& final(reader).pos() == p
                &&& final(self).ended() == (m is Some || p >= old(reader).bytes().len())
                &&& final(self).marker == match m {
                    Some(mb) => spec_marker(mb),
                    None => old(self).marker,
                }
            },
    {
        if self.no_more {
            return 0;
        }
        let ghost bytes = reader.bytes();
        let ghost pos0 = reader.pos();
        let byte = match reader.next_byte() {
            Some(v) => v,
            None => {
                self.no_more = true;
                return 0;
            },
        };
        if byte != 0xFF {
            if reader.position() >= reader.len() {
                self.no_more = true;
            }
            return byte;
        }
        // skip fill bytes
        let mut next = reader.next_byte();
        while next == Some(0xFFu8)
            invariant
                reader.wf(),
                reader.bytes() == bytes,
                pos0 + 1 <= reader.pos() <= bytes.len(),
                next is Some ==> next == Some(bytes[reader.pos() - 1]) && reader.pos() >= pos0 + 2
                    && skip_fill(bytes, pos0 + 1) == skip_fill(bytes, reader.pos() - 1),
                next is None ==> skip_fill(bytes, pos0 + 1) == reader.pos() && reader.pos()
                    == bytes.len(),
            decreases (bytes.len() - reader.pos()) * 2 + if next is Some {
                1int
            } else {
                0
            },
        {
            let ghost p_before = reader.pos();
            assert(skip_fill(bytes, p_before - 1) == skip_fill(bytes, p_before));
            next = reader.next_byte();
        }
        proof {
            lemma_skip_fill_bounds(bytes, pos0 + 1);
        }
        match next {
            Some(0) => {
                if reader.position() >= reader.len() {
                    self.no_more = true;
                }
                0xFF
            },
            Some(m) => {
                self.marker = Marker::from_u8(m);
                self.no_more = true;
                0
            },
            None => {
                self.no_more = true;
                0xFF
            },
        }
    }

    /// Refill the bit buffer with four more bytes when it holds 32 bits or
    /// fewer, so that at least 32 bits are held afterwards.
    ///
    /// Returns false when the entropy coded data has ended at a marker. The
    /// marker is recorded, the bits read before it stay first in the buffer,
    /// and the buffer is topped up with zero bits in place of the bytes that
    /// are missing (the same padding libjpeg uses). The buffer therefore
    /// always holds 32 bits, so that the codes of a block that end just
    /// before the marker still decode, and every read of the buffer stays in
    /// bounds; without the padding only the eight bits of a single byte
    /// would be held after `[0xAB, 0xFF, 0xD9]`, too few for a code and its
    /// magnitude bits.
    fn refill(&mut self, reader: &mut ByteReader) -> (ok: bool)
        requires
            old(self).wf(),
            old(reader).wf(),
        ensures
            final(self).wf(),
            final(reader).wf(),
            final(reader).bytes() == old(reader).bytes(),
            old(reader).pos() <= final(reader).pos(),
            final(self).num_bits() >= 32,
            old(self).num_bits() > 32 ==> final(self).held() == old(self).held()
                && final(self).num_bits() == old(self).num_bits() && final(reader).pos() == old(reader).pos() && final(self).marker == old(self).marker && final(self).ended() == old(self).ended(),
            old(self).num_bits() <= 32 ==> final(self).num_bits() == old(self).num_bits() + 32
                && final(self).spec_peek(old(self).num_bits()) == old(self).held(),
            old(self).ended() ==> final(self).ended() && final(self).marker == old(self).marker,
            ok == final(self).marker is None,
            final(self).successive_high == old(self).successive_high,
            final(self).successive_low == old(self).successive_low,
            final(self).spec_start == old(self).spec_start,
            final(self).spec_end == old(self).spec_end,
            final(self).eob_run == old(self).eob_run,
            final(self).pending(*final(reader)) == old(self).pending(*old(reader)),
            advanced(*old(self), *old(reader), *final(self), *final(reader), 0),
    {
        assert(advanced(*old(self), *old(reader), *self, *reader, 0));
        // 32 bits is enough for a decode(16 bits) and receive_extend(max 16 bits)
        if self.bits_left <= 32 {
            proof {
                lemma2_to64();
                assert(pow2(0) == 1);
                assert(self.buffer as int / 1 == self.buffer as int);
            }
            let ghost old_held = self.buffer as int;
            let ghost old_bits = self.bits_left as int;
            let mut n: usize = 0;
            while n < 4
                invariant
                    self.wf(),
                    reader.wf(),
                    reader.bytes() == old(reader).bytes(),
                    old(reader).pos() <= reader.pos(),
                    n <= 4,
                    self.bits_left == old_bits + 8 * n,
                    old_bits <= 32,
                    self.buffer as int / pow2((8 * n) as nat) as int == old_held,
                    old(self).ended() ==> self.ended() && self.marker == old(self).marker,
                    self.successive_high == old(self).successive_high,
                    self.successive_low == old(self).successive_low,
                    self.spec_start == old(self).spec_start,
                    self.spec_end == old(self).spec_end,
                    self.eob_run == old(self).eob_run,
                    self.pending(*reader) == old(self).pending(*old(reader)),
                    advanced(*old(self), *old(reader), *self, *reader, 0),
                decreases 4 - n,
            {
                let ghost sa = *self;
                let ghost ra = *reader;
                let byte = self.next_data_byte(reader);
                proof {
                    lemma_pow2_adds(self.bits_left as nat, 8);
                    lemma2_to64();
                    lemma_pow2_pos(self.bits_left as nat);
                    lemma_pow2_pos((8 * n) as nat);
                    lemma_pow2_adds((8 * n) as nat, 8);
                    assert(pow2(64) == 0x1_0000_0000_0000_0000) by {
                        lemma2_to64();
                    }
                    if self.bits_left + 8 < 64 {
                        lemma_pow2_strictly_increases((self.bits_left + 8) as nat, 64);
                    }
                    assert(self.buffer * 256 + byte < pow2(self.bits_left as nat) * 256) by (
                    nonlinear_arith)
                        requires
                            self.buffer < pow2(self.bits_left as nat),
                            byte < 256,
                    ;
                    // dividing the extended buffer recovers the old bits
                    let b = self.buffer as int;
                    let p = pow2((8 * n) as nat) as int;
                    vstd::arithmetic::div_mod::lemma_div_denominator(b * 256 + byte as int, 256, p);
                    lemma_div_shifted(b, 256, byte as int);
                    vstd::arithmetic::mul::lemma_mul_is_commutative(256, p);
                }
                self.buffer = self.buffer * 256 + byte as u64;
                self.bits_left = self.bits_left + 8;
                proof {
                    lemma_append_byte(sa, ra, *self, *reader, byte);
                    lemma_advanced_trans(*old(self), *old(reader), sa, ra, *self, *reader, 0, 0);
                }
                n += 1;
            }
        }
        self.marker.is_none()
    }
}

/// Bits that are not consumed keep their order.
proof fn lemma_split_bits(held: int, bits: int, n: int)
    requires
        0 <= n <= bits <= 64,
        0 <= held < pow2(bits as nat),
    ensures
        (held / pow2((bits - n) as nat) as int) < pow2(n as nat),
        0 <= held % pow2((bits - n) as nat) as int,
        held % (pow2((bits - n) as nat) as int) < pow2((bits - n) as nat),
{
    let p = pow2((bits - n) as nat) as int;
    lemma_pow2_pos((bits - n) as nat);
    lemma_pow2_adds((bits - n) as nat, n as nat);
    vstd::arithmetic::mul::lemma_mul_is_commutative(p, pow2(n as nat) as int);
    vstd::arithmetic::div_mod::lemma_multiply_divide_lt(held, p, pow2(n as nat) as int);
    vstd::arithmetic::div_mod::lemma_mod_pos_bound(held, p);
}

/// The symbol a Huffman table (its code counts and symbols) decodes from the
/// bits of `src` at `at`, with the bits its code takes; where no code starts
/// there, symbol zero taking sixteen bits.
pub open spec fn huff_symbol(src: spec_fn(int) -> int, at: int, counts: Seq<u8>, values: Seq<u8>) -> (
    int,
    int,
) {
    match spec_huff_decode(counts, bits_value(src, at, 16)) {
        Some((l, k)) => (values[k] as int, l),
        None => (0, 16),
    }
}

/// The DC difference coded in the bits of `src` at `at`, with the bits it
/// takes: a magnitude category from the DC table, then that many magnitude
/// bits. A category of zero or above 16 stands for no difference.
pub open spec fn dc_diff(src: spec_fn(int) -> int, at: int, counts: Seq<u8>, values: Seq<u8>) -> (
    int,
    int,
) {
    let (t, l) = huff_symbol(src, at, counts, values);
    if t != 0 && t <= 16 {
        (spec_extend(bits_value(src, at + l, t as nat), t), l + t)
    } else {
        (0, l)
    }
}

/// One symbol of the AC coefficients of a block, coded in the bits of `src`
/// at `at`, at zig-zag position `pos`: the block, the position after the
/// bits it takes, the zig-zag position after it and whether it ends the
/// block. The symbol holds a zero run (high nibble) and a magnitude category
/// (low nibble) whose magnitude bits follow; the coefficient goes to its
/// natural position (none to the DC position). Category zero ends the block,
/// except with a run of 15, which skips sixteen zero coefficients.
pub open spec fn ac_step(
    src: spec_fn(int) -> int,
    at: int,
    pos: int,
    block: Seq<i16>,
    counts: Seq<u8>,
    values: Seq<u8>,
) -> (Seq<i16>, int, int, bool) {
    let (rs, l) = huff_symbol(src, at, counts, values);
    let r = rs / 16;
    let s = rs % 16;
    if s != 0 {
        let p = pos + r;
        let natural = UN_ZIGZAG@[p] as int;
        let v = spec_extend(bits_value(src, at + l, s as nat), s);
        (
            if natural != 0 {
                block.update(natural, v as i16)
            } else {
                block
            },
            at + l + s,
            p + 1,
            false,
        )
    } else if r != 15 {
        (block, at + l, pos, true)
    } else {
        (block, at + l, pos + 16, false)
    }
}

/// The AC coefficients of a block coded in the bits of `src` at `at`, from
/// zig-zag position `pos` on, written into `block`, with the position after
/// the last bit they take: symbols follow until one ends the block or the
/// zig-zag position reaches 64.
pub open spec fn ac_coeffs(
    src: spec_fn(int) -> int,
    at: int,
    pos: int,
    block: Seq<i16>,
    counts: Seq<u8>,
    values: Seq<u8>,
) -> (Seq<i16>, int)
    decreases 80 - pos,
{
    if pos >= 64 || pos < 0 {
        (block, at)
    } else {
        let (b2, at2, p2, done) = ac_step(src, at, pos, block, counts, values);
        if done {
            (b2, at2)
        } else if p2 <= pos || p2 > 80 {
            (block, at)
        } else {
            ac_coeffs(src, at2, p2, b2, counts, values)
        }
    }
}

/// One symbol of a block in the first scan of a band of AC coefficients,
/// coded in the bits of `src` at `at`, at zig-zag position `k`, coefficients
/// scaled by `scale`: `Err` when no code of the table starts there, otherwise
/// the block, the position after the bits taken, the zig-zag position after
/// the symbol and the end-of-band run it starts, if it does (category zero
/// with a run `r` below 15: `2^r` blocks minus one, plus the `r` bits that
/// follow; with 15, sixteen zero coefficients are skipped).
pub open spec fn ac_first_step(
    src: spec_fn(int) -> int,
    at: int,
    k: int,
    block: Seq<i16>,
    counts: Seq<u8>,
    values: Seq<u8>,
    scale: int,
) -> Result<(Seq<i16>, int, int, Option<int>), ()> {
    match spec_huff_decode(counts, bits_value(src, at, 16)) {
        None => Err(()),
        Some((l, idx)) => {
            let rs = values[idx] as int;
            let r = rs / 16;
            let s = rs % 16;
            if s == 0 {
                if r < 15 {
                    Ok(
                        (
                            block,
                            at + l + r,
                            k,
                            Some(pow2(r as nat) + bits_value(src, at + l, r as nat) - 1),
                        ),
                    )
                } else {
                    Ok((block, at + l, k + 16, None))
                }
            } else {
                let p = k + r;
                let natural = UN_ZIGZAG@[p] as int;
                let v = spec_extend(bits_value(src, at + l, s as nat), s);
                Ok(
                    (
                        if natural != 0 {
                            block.update(natural, (v * scale) as i16)
                        } else {
                            block
                        },
                        at + l + s,
                        p + 1,
                        None,
                    ),
                )
            }
        },
    }
}

/// The coefficients `k..=end` of a block in the first scan of their band,
/// coded in the bits of `src` at `at`: the block, the position after the last
/// bit taken and the end-of-band run left (`eob` when none starts), or `Err`
/// when a code is not in the table.
pub open spec fn ac_first_coeffs(
    src: spec_fn(int) -> int,
    at: int,
    k: int,
    end: int,
    block: Seq<i16>,
    counts: Seq<u8>,
    values: Seq<u8>,
    scale: int,
    eob: int,
) -> Result<(Seq<i16>, int, int), ()>
    decreases 80 - k,
{
    if k > end || k < 0 || k >= 80 {
        Ok((block, at, eob))
    } else {
        match ac_first_step(src, at, k, block, counts, values, scale) {
            Err(_) => Err(()),
            Ok((b2, at2, k2, run)) => match run {
                Some(e) => Ok((b2, at2, e)),
                None => if k2 <= k || k2 > 80 {
                    Ok((block, at, eob))
                } else {
                    ac_first_coeffs(src, at2, k2, end, b2, counts, values, scale, eob)
                },
            },
        }
    }
}

/// A nonzero coefficient after its refinement bit `b`: when the bit is set
/// and the coefficient does not have `bit` yet, it moves `bit` away from zero.
pub open spec fn refined(p: i16, b: int, bit: i32) -> i16 {
    if b == 1 && (p as i32) & bit == 0 {
        if p > 0 {
            (p + bit) as i16
        } else {
            (p - bit) as i16
        }
    } else {
        p
    }
}

/// A refinement bit of 1 on a nonzero coefficient that lacks the bit adds
/// the bit to the coefficient's magnitude and keeps its sign (T.81
/// G.1.2.3); any other case leaves the coefficient as it is.
pub proof fn lemma_refined_grows_magnitude(p: i16, b: int, bit: i32)
    requires
        p != 0,
        0 < bit <= 16384,
        -32767 + bit <= p <= 32767 - bit,
    ensures
        b == 1 && (p as i32) & bit == 0 ==> {
            let q = refined(p, b, bit);
            &&& (q > 0) == (p > 0)
            &&& q != 0
            &&& (if q > 0 { q as int } else { -q }) == (if p > 0 { p as int } else { -p }) + bit
        },
        !(b == 1 && (p as i32) & bit == 0) ==> refined(p, b, bit) == p,
{
}

/// The coefficients of a refinement scan from zig-zag position `k` to `end`,
/// with refinement bits taken from `src` at `at`: each nonzero coefficient
/// takes one bit, and the zero ones count `r` down; at the zero coefficient
/// where `r` is zero, `value` is placed and the run stops. The block, the
/// position after the bits taken and the zig-zag position after the run.
pub open spec fn refine_run(
    src: spec_fn(int) -> int,
    at: int,
    k: int,
    end: int,
    r: int,
    value: int,
    block: Seq<i16>,
    bit: i32,
) -> (Seq<i16>, int, int)
    decreases 64 - k,
{
    if k > end || k < 0 || k >= 64 {
        (block, at, k)
    } else {
        let natural = UN_ZIGZAG@[k] as int;
        let p = block[natural];
        if p != 0 {
            if natural != 0 {
                refine_run(
                    src,
                    at + 1,
                    k + 1,
                    end,
                    r,
                    value,
                    block.update(natural, refined(p, src(at), bit)),
                    bit,
                )
            } else {
                refine_run(src, at, k + 1, end, r, value, block, bit)
            }
        } else if r == 0 {
            (
                if natural != 0 {
                    block.update(natural, value as i16)
                } else {
                    block
                },
                at,
                k + 1,
            )
        } else {
            refine_run(src, at, k + 1, end, r - 1, value, block, bit)
        }
    }
}

/// How a refinement scan may change one coefficient `p` into `q`: not at
/// all; a nonzero coefficient grows by `bit` in magnitude and keeps its
/// sign; or a zero coefficient becomes the new coefficient `value`.
pub open spec fn refine_keeps(p: i16, q: i16, bit: int, value: int) -> bool {
    ||| q == p
    ||| p != 0 && q != 0 && (q > 0) == (p > 0) && (if q > 0 { q as int } else { -q }) == (if p > 0 {
        p as int
    } else {
        -p
    }) + bit
    ||| p == 0 && q as int == value
}

/// A run of a refinement scan only refines: every coefficient stays, grows
/// in magnitude by `bit` keeping its sign, or (when zero) becomes the new
/// coefficient `value`; the coefficients before the run's zig-zag start
/// stay as they are.
pub proof fn lemma_refine_run_keeps(
    src: spec_fn(int) -> int,
    at: int,
    k: int,
    end: int,
    r: int,
    value: int,
    block: Seq<i16>,
    bit: i32,
)
    requires
        block.len() == 64,
        0 <= k,
        0 < bit <= 16384,
        -16384 <= value <= 16384,
        forall|n: int|
            0 <= n < 64 && spec_zigzag_of(n) >= k ==> -32767 + bit <= #[trigger] block[n] <= 32767 - bit,
    ensures
        ({
            let q = refine_run(src, at, k, end, r, value, block, bit).0;
            &&& q.len() == 64
            &&& forall|n: int| 0 <= n < 64 ==> refine_keeps(#[trigger] block[n], q[n], bit as int, value)
            &&& forall|n: int| 0 <= n < 64 && spec_zigzag_of(n) < k ==> #[trigger] q[n] == block[n]
        }),
    decreases 64 - k,
{
    lemma_zigzag_inverse();
    lemma_un_zigzag_injective();
    if k > end || k < 0 || k >= 64 {
    } else {
        let natural = UN_ZIGZAG@[k] as int;
        assert(0 <= natural < 64);
        assert(spec_zigzag_of(natural) == k);
        let p = block[natural];
        if p != 0 {
            if natural != 0 {
                let mid = block.update(natural, refined(p, src(at), bit));
                lemma_refined_grows_magnitude(p, src(at), bit);
                assert forall|n: int|
                    0 <= n < 64 && spec_zigzag_of(n) >= k + 1 implies -32767 + bit <= #[trigger] mid[n]
                    <= 32767 - bit by {
                    assert(n != natural);
                }
                lemma_refine_run_keeps(src, at + 1, k + 1, end, r, value, mid, bit);
                let q = refine_run(src, at + 1, k + 1, end, r, value, mid, bit).0;
                assert forall|n: int| 0 <= n < 64 implies refine_keeps(#[trigger] block[n], q[n], bit as int, value) by {
                    if n == natural {
                        assert(q[n] == mid[n]);
                    } else {
                        assert(mid[n] == block[n]);
                        assert(refine_keeps(mid[n], q[n], bit as int, value));
                    }
                }
                assert forall|n: int| 0 <= n < 64 && spec_zigzag_of(n) < k implies #[trigger] q[n] == block[n] by {
                    assert(n != natural);
                    assert(q[n] == mid[n]);
                }
            } else {
                lemma_refine_run_keeps(src, at, k + 1, end, r, value, block, bit);
            }
        } else if r == 0 {
            let q = if natural != 0 {
                block.update(natural, value as i16)
            } else {
                block
            };
            assert forall|n: int| 0 <= n < 64 implies refine_keeps(#[trigger] block[n], q[n], bit as int, value) by {
                if n == natural && natural != 0 {
                    assert(q[n] as int == value);
                }
            }
        } else {
            lemma_refine_run_keeps(src, at, k + 1, end, r - 1, value, block, bit);
        }
    }
}

/// One symbol of a block in a refinement scan of a band of AC coefficients,
/// coded in the bits of `src` at `at`, at zig-zag position `k`: `Err` when no
/// code of the table starts there or a new coefficient is larger than one
/// bit; otherwise the block, the position after the bits taken, the zig-zag
/// position after the symbol and the end-of-band run it starts, if it does.
/// A new coefficient (category one, sign in the next bit) goes after `r`
/// zero coefficients; category zero with `r` below 15 starts an end-of-band
/// run and refines the rest of the band, with 15 it skips sixteen zero
/// coefficients.
pub open spec fn refine_step(
    src: spec_fn(int) -> int,
    at: int,
    k: int,
    end: int,
    block: Seq<i16>,
    counts: Seq<u8>,
    values: Seq<u8>,
    bit: i32,
) -> Result<(Seq<i16>, int, int, Option<int>), ()> {
    match spec_huff_decode(counts, bits_value(src, at, 16)) {
        None => Err(()),
        Some((l, idx)) => {
            let rs = values[idx] as int;
            let r = rs / 16;
            let s = rs % 16;
            if s == 0 {
                if r < 15 {
                    let eob = pow2(r as nat) - 1 + bits_value(src, at + l, r as nat);
                    let (b2, at2, k2) = refine_run(src, at + l + r, k, end, 64, 0, block, bit);
                    Ok((b2, at2, k2, Some(eob)))
                } else {
                    let (b2, at2, k2) = refine_run(src, at + l, k, end, 15, 0, block, bit);
                    Ok((b2, at2, k2, None))
                }
            } else if s != 1 {
                Err(())
            } else {
                let value = if src(at + l) == 1 {
                    bit as int
                } else {
                    -bit
                };
                let (b2, at2, k2) = refine_run(src, at + l + 1, k, end, r, value, block, bit);
                Ok((b2, at2, k2, None))
            }
        },
    }
}

/// One symbol of a refinement scan only refines: each coefficient stays,
/// a nonzero one may grow by `bit` in magnitude keeping its sign, and a zero
/// one may become a new coefficient of magnitude `bit`.
pub proof fn lemma_refine_step_keeps(
    src: spec_fn(int) -> int,
    at: int,
    k: int,
    end: int,
    block: Seq<i16>,
    counts: Seq<u8>,
    values: Seq<u8>,
    bit: i32,
)
    requires
        block.len() == 64,
        0 <= k,
        0 < bit <= 16384,
        forall|n: int|
            0 <= n < 64 && spec_zigzag_of(n) >= k ==> -32767 + bit <= #[trigger] block[n] <= 32767 - bit,
    ensures
        refine_step(src, at, k, end, block, counts, values, bit) matches Ok((b2, at2, k2, run)) ==> {
            &&& b2.len() == 64
            &&& forall|n: int|
                0 <= n < 64 ==> {
                    ||| refine_keeps(#[trigger] block[n], b2[n], bit as int, bit as int)
                    ||| refine_keeps(block[n], b2[n], bit as int, -bit)
                }
        },
{
    match spec_huff_decode(counts, bits_value(src, at, 16)) {
        None => {},
        Some((l, idx)) => {
            let rs = values[idx] as int;
            let r = rs / 16;
            let sz = rs % 16;
            if sz == 0 {
                if r < 15 {
                    lemma_refine_run_keeps(src, at + l + r, k, end, 64, 0, block, bit);
                    let b2 = refine_run(src, at + l + r, k, end, 64, 0, block, bit).0;
                    assert forall|n: int| 0 <= n < 64 implies refine_keeps(#[trigger] block[n], b2[n], bit as int, bit as int) by {
                        assert(refine_keeps(block[n], b2[n], bit as int, 0));
                    }
                } else {
                    lemma_refine_run_keeps(src, at + l, k, end, 15, 0, block, bit);
                    let b2 = refine_run(src, at + l, k, end, 15, 0, block, bit).0;
                    assert forall|n: int| 0 <= n < 64 implies refine_keeps(#[trigger] block[n], b2[n], bit as int, bit as int) by {
                        assert(refine_keeps(block[n], b2[n], bit as int, 0));
                    }
                }
            } else if sz == 1 {
                let value = if src(at + l) == 1 {
                    bit as int
                } else {
                    -bit
                };
                lemma_refine_run_keeps(src, at + l + 1, k, end, r, value, block, bit);
            }
        },
    }
}

/// The coefficients `k..=end` of a block in a refinement scan, coded in the
/// bits of `src` at `at`: the block, the position after the last bit taken
/// and the end-of-band run left (`eob` when none starts), or `Err`.
pub open spec fn refine_coeffs(
    src: spec_fn(int) -> int,
    at: int,
    k: int,
    end: int,
    block: Seq<i16>,
    counts: Seq<u8>,
    values: Seq<u8>,
    bit: i32,
    eob: int,
) -> Result<(Seq<i16>, int, int), ()>
    decreases 80 - k,
{
    if k > end || k < 0 || k >= 80 {
        Ok((block, at, eob))
    } else {
        match refine_step(src, at, k, end, block, counts, values, bit) {
            Err(_) => Err(()),
            Ok((b2, at2, k2, run)) => match run {
                Some(e) => Ok((b2, at2, e)),
                None => if k2 <= k || k2 > 80 {
                    Ok((block, at, eob))
                } else {
                    refine_coeffs(src, at2, k2, end, b2, counts, values, bit, eob)
                },
            },
        }
    }
}

/// A block of a sequential scan coded in the bits of `src` at `at`, its DC
/// prediction `pred` and its tables (DC code counts and symbols, AC code
/// counts and symbols): the coefficients (from a zero block), the new
/// prediction and the position after the last bit taken.
pub open spec fn block_decode(
    src: spec_fn(int) -> int,
    at: int,
    pred: i32,
    t: (Seq<u8>, Seq<u8>, Seq<u8>, Seq<u8>),
) -> (Seq<i16>, i32, int) {
    let (diff, u1) = dc_diff(src, at, t.0, t.1);
    let p = pred.wrapping_add(diff as i32);
    let (coeffs, end) = ac_coeffs(
        src,
        at + u1,
        1,
        Seq::new(64, |i: int| 0i16).update(0, #[verifier::truncate] (p as i16)),
        t.2,
        t.3,
    );
    (coeffs, p, end)
}

/// The bits of `f` are those of `g` past the first `n`.
pub open spec fn shifted(f: spec_fn(int) -> int, g: spec_fn(int) -> int, n: int) -> bool {
    forall|i: int| 0 <= i ==> #[trigger] f(i) == g(i + n)
}

/// A symbol decoded from bits that are shifted is the same.
pub proof fn lemma_huff_symbol_shifted(
    f: spec_fn(int) -> int,
    g: spec_fn(int) -> int,
    n: int,
    a: int,
    counts: Seq<u8>,
    values: Seq<u8>,
)
    requires
        shifted(f, g, n),
        a >= 0,
    ensures
        huff_symbol(f, a, counts, values) == huff_symbol(g, a + n, counts, values),
        forall|m: nat| #[trigger] bits_value(f, a + huff_symbol(f, a, counts, values).1, m) == bits_value(
            g,
            a + n + huff_symbol(f, a, counts, values).1,
            m,
        ),
{
    lemma_bits_value_shift(f, g, a, n, 16);
    lemma_huff_symbol_bounds(f, a, counts, values);
    let l = huff_symbol(f, a, counts, values).1;
    assert forall|m: nat| #[trigger] bits_value(f, a + l, m) == bits_value(g, a + n + l, m) by {
        lemma_bits_value_shift(f, g, a + l, n, m);
    }
}

/// An AC symbol decoded from shifted bits is the same, its end shifted.
proof fn lemma_ac_step_shifted(
    f: spec_fn(int) -> int,
    g: spec_fn(int) -> int,
    n: int,
    a: int,
    pos: int,
    block: Seq<i16>,
    counts: Seq<u8>,
    values: Seq<u8>,
)
    requires
        shifted(f, g, n),
        a >= 0,
    ensures
        ({
            let (b1, a1, p1, d1) = ac_step(f, a, pos, block, counts, values);
            &&& ac_step(g, a + n, pos, block, counts, values) == (b1, a1 + n, p1, d1)
            &&& a1 >= a
        }),
{
    lemma_huff_symbol_shifted(f, g, n, a, counts, values);
    lemma_huff_symbol_bounds(f, a, counts, values);
    let s = huff_symbol(f, a, counts, values).0 % 16;
    assert(bits_value(f, a + huff_symbol(f, a, counts, values).1, s as nat) == bits_value(
        g,
        a + n + huff_symbol(f, a, counts, values).1,
        s as nat,
    ));
}

/// The AC coefficients decoded from shifted bits are the same, their end
/// shifted.
pub proof fn lemma_ac_coeffs_shifted(
    f: spec_fn(int) -> int,
    g: spec_fn(int) -> int,
    n: int,
    a: int,
    pos: int,
    block: Seq<i16>,
    counts: Seq<u8>,
    values: Seq<u8>,
)
    requires
        shifted(f, g, n),
        a >= 0,
    ensures
        ({
            let (b1, e1) = ac_coeffs(f, a, pos, block, counts, values);
            &&& ac_coeffs(g, a + n, pos, block, counts, values) == (b1, e1 + n)
            &&& e1 >= a
        }),
    decreases 80 - pos,
{
    if !(pos >= 64 || pos < 0) {
        lemma_ac_step_shifted(f, g, n, a, pos, block, counts, values);
        let (b2, at2, p2, done) = ac_step(f, a, pos, block, counts, values);
        if !done && !(p2 <= pos || p2 > 80) {
            lemma_ac_coeffs_shifted(f, g, n, at2, p2, b2, counts, values);
        }
    }
}

/// A block decoded from shifted bits is the same, its end shifted.
pub proof fn lemma_block_decode_shifted(
    f: spec_fn(int) -> int,
    g: spec_fn(int) -> int,
    n: int,
    a: int,
    pred: i32,
    t: (Seq<u8>, Seq<u8>, Seq<u8>, Seq<u8>),
)
    requires
        shifted(f, g, n),
        a >= 0,
    ensures
        ({
            let (c1, p1, e1) = block_decode(f, a, pred, t);
            &&& block_decode(g, a + n, pred, t) == (c1, p1, e1 + n)
            &&& e1 >= a
        }),
{
    lemma_huff_symbol_shifted(f, g, n, a, t.0, t.1);
    lemma_huff_symbol_bounds(f, a, t.0, t.1);
    let sym = huff_symbol(f, a, t.0, t.1);
    assert(bits_value(f, a + sym.1, sym.0 as nat) == bits_value(g, a + n + sym.1, sym.0 as nat));
    let u1 = dc_diff(f, a, t.0, t.1).1;
    assert(dc_diff(g, a + n, t.0, t.1) == dc_diff(f, a, t.0, t.1));
    assert(u1 >= 0);
    let p = pred.wrapping_add(dc_diff(f, a, t.0, t.1).0 as i32);
    lemma_ac_coeffs_shifted(
        f,
        g,
        n,
        a + u1,
        1,
        Seq::new(64, |i: int| 0i16).update(0, #[verifier::truncate] (p as i16)),
        t.2,
        t.3,
    );
}

/// A DC difference decoded from shifted bits is the same.
pub proof fn lemma_dc_diff_shifted(
    f: spec_fn(int) -> int,
    g: spec_fn(int) -> int,
    n: int,
    a: int,
    counts: Seq<u8>,
    values: Seq<u8>,
)
    requires
        shifted(f, g, n),
        a >= 0,
    ensures
        dc_diff(g, a + n, counts, values) == dc_diff(f, a, counts, values),
        dc_diff(f, a, counts, values).1 >= 0,
{
    lemma_huff_symbol_shifted(f, g, n, a, counts, values);
    lemma_huff_symbol_bounds(f, a, counts, values);
    let sym = huff_symbol(f, a, counts, values);
    assert(bits_value(f, a + sym.1, sym.0 as nat) == bits_value(g, a + n + sym.1, sym.0 as nat));
}

/// One symbol of a first AC scan decoded from shifted bits is the same, its
/// end shifted.
proof fn lemma_ac_first_step_shifted(
    f: spec_fn(int) -> int,
    g: spec_fn(int) -> int,
    n: int,
    a: int,
    k: int,
    block: Seq<i16>,
    counts: Seq<u8>,
    values: Seq<u8>,
    scale: int,
)
    requires
        shifted(f, g, n),
        a >= 0,
    ensures
        match ac_first_step(f, a, k, block, counts, values, scale) {
            Err(_) => ac_first_step(g, a + n, k, block, counts, values, scale) is Err,
            Ok((b1, a1, k1, run)) => ac_first_step(g, a + n, k, block, counts, values, scale) == Ok::<
                (Seq<i16>, int, int, Option<int>),
                (),
            >((b1, a1 + n, k1, run)) && a1 >= a,
        },
{
    lemma_bits_value_shift(f, g, a, n, 16);
    lemma_huff_decode_length(counts, bits_value(f, a, 16));
    match spec_huff_decode(counts, bits_value(f, a, 16)) {
        None => {},
        Some((l, idx)) => {
            let rs = values[idx] as int;
            lemma_bits_value_shift(f, g, a + l, n, (rs / 16) as nat);
            lemma_bits_value_shift(f, g, a + l, n, (rs % 16) as nat);
        },
    }
}

/// The coefficients of a first AC scan decoded from shifted bits are the
/// same, their end shifted.
pub proof fn lemma_ac_first_coeffs_shifted(
    f: spec_fn(int) -> int,
    g: spec_fn(int) -> int,
    n: int,
    a: int,
    k: int,
    end: int,
    block: Seq<i16>,
    counts: Seq<u8>,
    values: Seq<u8>,
    scale: int,
    eob: int,
)
    requires
        shifted(f, g, n),
        a >= 0,
    ensures
        match ac_first_coeffs(f, a, k, end, block, counts, values, scale, eob) {
            Err(_) => ac_first_coeffs(g, a + n, k, end, block, counts, values, scale, eob) is Err,
            Ok((b1, a1, e1)) => ac_first_coeffs(g, a + n, k, end, block, counts, values, scale, eob)
                == Ok::<(Seq<i16>, int, int), ()>((b1, a1 + n, e1)) && a1 >= a,
        },
    decreases 80 - k,
{
    if !(k > end || k < 0 || k >= 80) {
        lemma_ac_first_step_shifted(f, g, n, a, k, block, counts, values, scale);
        match ac_first_step(f, a, k, block, counts, values, scale) {
            Err(_) => {},
            Ok((b2, a2, k2, run)) => {
                if run is None && !(k2 <= k || k2 > 80) {
                    lemma_ac_first_coeffs_shifted(f, g, n, a2, k2, end, b2, counts, values, scale, eob);
                }
            },
        }
    }
}

/// A refinement run decoded from shifted bits is the same, its end shifted.
pub proof fn lemma_refine_run_shifted(
    f: spec_fn(int) -> int,
    g: spec_fn(int) -> int,
    n: int,
    a: int,
    k: int,
    end: int,
    r: int,
    value: int,
    block: Seq<i16>,
    bit: i32,
)
    requires
        shifted(f, g, n),
        a >= 0,
    ensures
        ({
            let (b1, a1, k1) = refine_run(f, a, k, end, r, value, block, bit);
            &&& refine_run(g, a + n, k, end, r, value, block, bit) == (b1, a1 + n, k1)
            &&& a1 >= a
        }),
    decreases 64 - k,
{
    if !(k > end || k < 0 || k >= 64) {
        let natural = UN_ZIGZAG@[k] as int;
        let p = block[natural];
        if p != 0 {
            if natural != 0 {
                assert(f(a) == g(a + n));
                lemma_refine_run_shifted(
                    f,
                    g,
                    n,
                    a + 1,
                    k + 1,
                    end,
                    r,
                    value,
                    block.update(natural, refined(p, f(a), bit)),
                    bit,
                );
            } else {
                lemma_refine_run_shifted(f, g, n, a, k + 1, end, r, value, block, bit);
            }
        } else if r != 0 {
            lemma_refine_run_shifted(f, g, n, a, k + 1, end, r - 1, value, block, bit);
        }
    }
}

/// One symbol of a refinement scan decoded from shifted bits is the same, its
/// end shifted.
proof fn lemma_refine_step_shifted(
    f: spec_fn(int) -> int,
    g: spec_fn(int) -> int,
    n: int,
    a: int,
    k: int,
    end: int,
    block: Seq<i16>,
    counts: Seq<u8>,
    values: Seq<u8>,
    bit: i32,
)
    requires
        shifted(f, g, n),
        a >= 0,
    ensures
        match refine_step(f, a, k, end, block, counts, values, bit) {
            Err(_) => refine_step(g, a + n, k, end, block, counts, values, bit) is Err,
            Ok((b1, a1, k1, run)) => refine_step(g, a + n, k, end, block, counts, values, bit) == Ok::<
                (Seq<i16>, int, int, Option<int>),
                (),
            >((b1, a1 + n, k1, run)) && a1 >= a,
        },
{
    lemma_bits_value_shift(f, g, a, n, 16);
    lemma_huff_decode_length(counts, bits_value(f, a, 16));
    match spec_huff_decode(counts, bits_value(f, a, 16)) {
        None => {},
        Some((l, idx)) => {
            let rs = values[idx] as int;
            let r = rs / 16;
            let s = rs % 16;
            if s == 0 {
                if r < 15 {
                    lemma_bits_value_shift(f, g, a + l, n, r as nat);
                    lemma_refine_run_shifted(f, g, n, a + l + r, k, end, 64, 0, block, bit);
                } else {
                    lemma_refine_run_shifted(f, g, n, a + l, k, end, 15, 0, block, bit);
                }
            } else if s == 1 {
                assert(f(a + l) == g(a + l + n));
                let value = if f(a + l) == 1 {
                    bit as int
                } else {
                    -bit
                };
                lemma_refine_run_shifted(f, g, n, a + l + 1, k, end, r, value, block, bit);
            }
        },
    }
}

/// The coefficients of a refinement scan decoded from shifted bits are the
/// same, their end shifted.
pub proof fn lemma_refine_coeffs_shifted(
    f: spec_fn(int) -> int,
    g: spec_fn(int) -> int,
    n: int,
    a: int,
    k: int,
    end: int,
    block: Seq<i16>,
    counts: Seq<u8>,
    values: Seq<u8>,
    bit: i32,
    eob: int,
)
    requires
        shifted(f, g, n),
        a >= 0,
    ensures
        match refine_coeffs(f, a, k, end, block, counts, values, bit, eob) {
            Err(_) => refine_coeffs(g, a + n, k, end, block, counts, values, bit, eob) is Err,
            Ok((b1, a1, e1)) => refine_coeffs(g, a + n, k, end, block, counts, values, bit, eob)
                == Ok::<(Seq<i16>, int, int), ()>((b1, a1 + n, e1)) && a1 >= a,
        },
    decreases 80 - k,
{
    if !(k > end || k < 0 || k >= 80) {
        lemma_refine_step_shifted(f, g, n, a, k, end, block, counts, values, bit);
        match refine_step(f, a, k, end, block, counts, values, bit) {
            Err(_) => {},
            Ok((b2, a2, k2, run)) => {
                if run is None && !(k2 <= k || k2 > 80) {
                    lemma_refine_coeffs_shifted(f, g, n, a2, k2, end, b2, counts, values, bit, eob);
                }
            },
        }
    }
}

/// A stream that advanced by `n` has the bits of the first past `n`.
pub proof fn lemma_advanced_shifted(s0: BitStream, r0: ByteReader, s1: BitStream, r1: ByteReader, n: int)
    requires
        advanced(s0, r0, s1, r1, n),
    ensures
        shifted(s1.ahead(r1), s0.ahead(r0), n),
{
    assert forall|i: int| 0 <= i implies #[trigger] s1.ahead(r1)(i) == s0.ahead(r0)(i + n) by {
        assert(s1.bit_ahead(r1, i) == s0.bit_ahead(r0, i + n));
    }
}

/// The bits of the entropy coded segment that starts at the reader's
/// position (zero bits once it has ended).
pub open spec fn segment_bits(r: ByteReader) -> spec_fn(int) -> int {
    segment_bits_at(r.bytes(), r.pos())
}

/// The bits of the entropy coded segment that starts at `pos` of `bytes`.
pub open spec fn segment_bits_at(bytes: Seq<u8>, pos: int) -> spec_fn(int) -> int {
    |i: int|
        if i < 0 {
            0
        } else {
            bit_of(data_byte(bytes, pos, false, (i / 8) as nat) as int, 7 - i % 8)
        }
}

/// An empty stream that has not ended reads the segment at the reader's
/// position.
pub proof fn lemma_empty_stream_bits(s: BitStream, r: ByteReader)
    requires
        s.wf(),
        s.num_bits() == 0,
        !s.ended(),
    ensures
        s.ahead(r) == segment_bits(r),
{
    lemma2_to64();
    assert(s.held() == 0);
    assert forall|i: int| #[trigger] s.ahead(r)(i) == segment_bits(r)(i) by {
        if i < 0 {
            lemma_pow2_pos((s.num_bits() - 1 - i) as nat);
        }
    }
    assert(s.ahead(r) =~= segment_bits(r));
}

/// The bits ahead of `(s1, r1)` are those of `(s0, r0)` past the first `n`.
pub open spec fn advanced(s0: BitStream, r0: ByteReader, s1: BitStream, r1: ByteReader, n: int) -> bool {
    forall|i: int| 0 <= i ==> #[trigger] s1.bit_ahead(r1, i) == s0.bit_ahead(r0, i + n)
}

/// The bits ahead of a stream are bits.
pub proof fn lemma_ahead_is_bits(s: BitStream, r: ByteReader)
    ensures
        is_bits(s.ahead(r)),
{
    assert forall|i: int| 0 <= #[trigger] s.ahead(r)(i) <= 1 by {
        if i < s.num_bits() {
        } else {
        }
    }
}

/// Advancing by `a` then by `b` advances by `a + b`.
pub proof fn lemma_advanced_trans(
    s0: BitStream,
    r0: ByteReader,
    s1: BitStream,
    r1: ByteReader,
    s2: BitStream,
    r2: ByteReader,
    a: int,
    b: int,
)
    requires
        a >= 0,
        b >= 0,
        advanced(s0, r0, s1, r1, a),
        advanced(s1, r1, s2, r2, b),
    ensures
        advanced(s0, r0, s2, r2, a + b),
{
    assert forall|i: int| 0 <= i implies #[trigger] s2.bit_ahead(r2, i) == s0.bit_ahead(r0, i + (a + b)) by {
        assert(s2.bit_ahead(r2, i) == s1.bit_ahead(r1, i + b));
        assert(s1.bit_ahead(r1, i + b) == s0.bit_ahead(r0, i + b + a));
    }
}

/// The bits of a stream that advanced by `n` are those of the stream `n`
/// further on.
pub proof fn lemma_advanced_value(
    s0: BitStream,
    r0: ByteReader,
    s1: BitStream,
    r1: ByteReader,
    n: int,
    a: int,
    m: nat,
)
    requires
        advanced(s0, r0, s1, r1, n),
        a >= 0,
    ensures
        bits_value(s1.ahead(r1), a, m) == bits_value(s0.ahead(r0), a + n, m),
{
    assert forall|i: int| a <= i < a + m implies #[trigger] s1.ahead(r1)(i) == s0.ahead(r0)(i + n) by {
        assert(s1.bit_ahead(r1, i) == s0.bit_ahead(r0, i + n));
    }
    lemma_bits_value_shift(s1.ahead(r1), s0.ahead(r0), a, n, m);
}

/// The first `n` held bits are the first `n` bits ahead.
pub proof fn lemma_peek_is_ahead(s: BitStream, r: ByteReader, n: nat)
    requires
        s.wf(),
        n <= s.num_bits(),
    ensures
        s.spec_peek(n as int) == bits_value(s.ahead(r), 0, n),
    decreases n,
{
    let nb = s.num_bits();
    lemma_pow2_pos((nb - n) as nat);
    if n == 0 {
        assert(s.held() / pow2(nb as nat) as int == 0) by {
            vstd::arithmetic::div_mod::lemma_basic_div(s.held(), pow2(nb as nat) as int);
        }
    } else {
        lemma_peek_is_ahead(s, r, (n - 1) as nat);
        let p = pow2((nb - n) as nat) as int;
        let q = s.held() / p;
        lemma_pow2_unfold((nb - n + 1) as nat);
        assert(pow2((nb - n + 1) as nat) == p * 2);
        vstd::arithmetic::div_mod::lemma_div_denominator(s.held(), p, 2);
        assert(s.spec_peek(n - 1) == q / 2);
        vstd::arithmetic::div_mod::lemma_fundamental_div_mod(q, 2);
        assert(s.ahead(r)(n - 1) == q % 2);
    }
}

/// Keeping the low `a` bits keeps bit `e` below them.
proof fn lemma_bit_of_mod(x: int, a: nat, e: nat)
    requires
        x >= 0,
        e < a,
    ensures
        bit_of(x % pow2(a) as int, e as int) == bit_of(x, e as int),
{
    let pe = pow2(e) as int;
    let pr = pow2((a - e) as nat) as int;
    lemma_pow2_pos(e);
    lemma_pow2_pos((a - e) as nat);
    lemma_pow2_pos((a - e - 1) as nat);
    lemma_pow2_adds(e, (a - e) as nat);
    assert(pow2(a) == pe * pr);
    vstd::arithmetic::div_mod::lemma_mod_breakdown(x, pe, pr);
    let y = (x / pe) % pr;
    vstd::arithmetic::div_mod::lemma_mod_pos_bound(x, pe);
    vstd::arithmetic::div_mod::lemma_div_multiples_vanish_fancy(y, x % pe, pe);
    assert((x % pow2(a) as int) / pe == y);
    lemma_pow2_unfold((a - e) as nat);
    assert(pr == 2 * pow2((a - e - 1) as nat));
    vstd::arithmetic::div_mod::lemma_mod_mod(x / pe, 2, pow2((a - e - 1) as nat) as int);
}

/// Dropping the first `n` held bits advances the stream by `n`.
pub proof fn lemma_drop_advances(s0: BitStream, s1: BitStream, r: ByteReader, n: int)
    requires
        s0.wf(),
        0 <= n <= s0.num_bits(),
        s1.num_bits() == s0.num_bits() - n,
        s1.held() == s0.held() % pow2((s0.num_bits() - n) as nat) as int,
        s1.ended() == s0.ended(),
    ensures
        advanced(s0, r, s1, r, n),
{
    assert forall|i: int| 0 <= i implies #[trigger] s1.bit_ahead(r, i) == s0.bit_ahead(r, i + n) by {
        if i < s1.num_bits() {
            lemma_bit_of_mod(s0.held(), (s0.num_bits() - n) as nat, (s1.num_bits() - 1 - i) as nat);
        }
    }
}

/// Appending the next data byte to the held bits leaves the bits ahead as
/// they were.
proof fn lemma_append_byte(s0: BitStream, r0: ByteReader, s1: BitStream, r1: ByteReader, d: u8)
    requires
        s0.wf(),
        s1.num_bits() == s0.num_bits() + 8,
        s1.held() == s0.held() * 256 + d,
        r1.bytes() == r0.bytes(),
        s0.ended() ==> d == 0 && r1.pos() == r0.pos() && s1.ended(),
        !s0.ended() ==> {
            let (dd, p, m) = spec_next_data_byte(r0.bytes(), r0.pos());
            &&& d == dd
            &&& r1.pos() == p
            &&& s1.ended() == (m is Some || p >= r0.bytes().len())
        },
    ensures
        advanced(s0, r0, s1, r1, 0),
{
    let h = s0.held();
    let nb = s0.num_bits();
    lemma2_to64();
    assert forall|i: int| 0 <= i implies #[trigger] s1.bit_ahead(r1, i) == s0.bit_ahead(r0, i + 0) by {
        if i < nb {
            let e = nb - 1 - i;
            // a held bit moves up by eight places
            lemma_pow2_adds(e as nat, 8);
            lemma_pow2_pos(e as nat);
            vstd::arithmetic::div_mod::lemma_div_denominator(h * 256 + d, 256, pow2(e as nat) as int);
            vstd::arithmetic::div_mod::lemma_div_multiples_vanish_fancy(h, d as int, 256);
            vstd::arithmetic::mul::lemma_mul_is_commutative(256, h);
            vstd::arithmetic::mul::lemma_mul_is_commutative(256, pow2(e as nat) as int);
        } else if i < nb + 8 {
            let e = nb + 7 - i;
            let pe = pow2(e as nat) as int;
            lemma_pow2_pos(e as nat);
            lemma_pow2_adds(e as nat, (8 - e) as nat);
            lemma_pow2_unfold((8 - e) as nat);
            let t = pow2((8 - e - 1) as nat) as int;
            assert(256 == pe * (2 * t));
            vstd::arithmetic::div_mod::lemma_hoist_over_denominator(d as int, h * (2 * t), pe as nat);
            assert(h * (2 * t) * pe == h * 256) by (nonlinear_arith)
                requires
                    256 == pe * (2 * t),
            ;
            assert((h * 256 + d) / pe == d as int / pe + h * (2 * t));
            assert(h * (2 * t) == 2 * (h * t)) by (nonlinear_arith);
            vstd::arithmetic::div_mod::lemma_mod_multiples_vanish(h * t, d as int / pe, 2);
        } else {
            let j = i - nb - 8;
            assert((j + 8) / 8 == j / 8 + 1 && (j + 8) % 8 == j % 8);
        }
    }
}

/// Within the next nine bits of `src`, the `l` bits of a code are followed by
/// `m` magnitude bits: in the window shifted left by the code's bits (modulo
/// nine bits), the magnitude bits lead.
proof fn lemma_window_fields(src: spec_fn(int) -> int, at: int, l: nat, m: nat)
    requires
        is_bits(src),
        1 <= l,
        1 <= m,
        l + m <= 9,
    ensures
        ((bits_value(src, at, 9) * pow2(l) as int) % 512) / pow2((9 - m) as nat) as int == bits_value(
            src,
            at + l,
            m,
        ),
        bits_value(src, at, 9) / pow2((9 - l) as nat) as int == bits_value(src, at, l),
        0 <= bits_value(src, at, 9) < 512,
{
    let c = bits_value(src, at, 9);
    let a = bits_value(src, at, l);
    let b = bits_value(src, at + l, (9 - l) as nat);
    let x = bits_value(src, at + l, m);
    let cc = bits_value(src, at + l + m, (9 - l - m) as nat);
    let pl = pow2(l) as int;
    let p9l = pow2((9 - l) as nat) as int;
    let q = pow2((9 - l - m) as nat) as int;
    lemma2_to64();
    lemma_pow2_pos(l);
    lemma_pow2_pos((9 - l) as nat);
    lemma_pow2_pos((9 - l - m) as nat);
    lemma_bits_value_split(src, at, l, (9 - l) as nat);
    lemma_bits_value_split(src, at + l, m, (9 - l - m) as nat);
    lemma_bits_value_bounds(src, at, 9);
    lemma_bits_value_bounds(src, at + l, (9 - l) as nat);
    lemma_bits_value_bounds(src, at + l + m, (9 - l - m) as nat);
    lemma_bits_value_bounds(src, at, l);
    assert(c == a * p9l + b);
    assert(b == x * q + cc);
    lemma_pow2_adds((9 - l) as nat, l);
    assert(p9l * pl == 512);
    lemma_pow2_adds(l, (9 - l - m) as nat);
    assert(pow2((9 - m) as nat) as int == pl * q);
    // the code bits shift out of the window
    assert(c * pl == 512 * a + b * pl) by (nonlinear_arith)
        requires
            c == a * p9l + b,
            p9l * pl == 512,
    ;
    vstd::arithmetic::div_mod::lemma_mod_multiples_vanish(a, b * pl, 512);
    assert(0 <= b * pl < 512) by (nonlinear_arith)
        requires
            0 <= b < p9l,
            p9l * pl == 512,
            pl > 0,
    ;
    vstd::arithmetic::div_mod::lemma_small_mod((b * pl) as nat, 512);
    assert((c * pl) % 512 == b * pl);
    vstd::arithmetic::div_mod::lemma_div_denominator(b * pl, pl, q);
    vstd::arithmetic::div_mod::lemma_div_multiples_vanish(b, pl);
    vstd::arithmetic::mul::lemma_mul_is_commutative(b, pl);
    assert((b * pl) / pl == b);
    vstd::arithmetic::div_mod::lemma_div_multiples_vanish_fancy(x, cc, q);
    vstd::arithmetic::mul::lemma_mul_is_commutative(x, q);
    assert(b / q == x);
    vstd::arithmetic::div_mod::lemma_div_multiples_vanish_fancy(a, b, p9l);
    vstd::arithmetic::mul::lemma_mul_is_commutative(a, p9l);
}

/// A non-zero entry of the fast AC table for the nine bits of `src` at `at`
/// stands for what the table decodes there: a symbol with a magnitude
/// category that is not zero, whose code and magnitude bits fit the nine
/// bits, and the coefficient of its magnitude bits, between -128 and 127. The
/// entry holds that coefficient times 256, the zero run times 16 and the
/// bits taken.
proof fn lemma_fast_ac_entry(table: HuffmanTable, src: spec_fn(int) -> int, at: int)
    requires
        table.wf(),
        table.fast_ac is Some,
        is_bits(src),
        table.fast_ac.unwrap()@[bits_value(src, at, 9)] != 0,
    ensures
        ({
            let (rs, l) = huff_symbol(src, at, table.spec_counts(), table.spec_values());
            let s = rs % 16;
            let v = spec_extend(bits_value(src, at + l, s as nat), s);
            &&& 0 <= rs < 256
            &&& 1 <= s
            &&& 1 <= l
            &&& l + s <= 9
            &&& -128 <= v <= 127
            &&& table.fast_ac.unwrap()@[bits_value(src, at, 9)] as int == v * 256 + (rs / 16) * 16 + l + s
        }),
{
    let counts = table.spec_counts();
    let t = table.fast_ac.unwrap();
    lemma2_to64();
    lemma_bits_value_bounds(src, at, 9);
    let c = bits_value(src, at, 9);
    let f = table.fast@[c];
    assert(t@[c] == spec_fast_ac_entry(
        f,
        if f != 255 {
            table.values@[f as int]
        } else {
            0u8
        },
        if f != 255 {
            table.size@[f as int] as int
        } else {
            0
        },
        c,
    ));
    assert(f != 255);
    let k = f as int;
    let l = code_length(counts, k);
    assert(k < total_symbols(counts) && l <= 9 && c / pow2((9 - l) as nat) as int == canonical_code(counts, k));
    lemma_canonical_code_bounds(counts, k);
    assert(table.size@[k] == l);
    let rs = table.values@[k];
    let mag = (rs % 16) as int;
    assert(mag != 0 && l + mag <= 9);
    // the sixteen bits start with the nine
    let w = bits_value(src, at, 16);
    lemma_bits_value_split(src, at, 9, 7);
    lemma_bits_value_bounds(src, at + 9, 7);
    lemma_bits_value_bounds(src, at, 16);
    lemma2_to64();
    lemma_pow2_pos((9 - l) as nat);
    lemma_pow2_adds(7, (9 - l) as nat);
    vstd::arithmetic::div_mod::lemma_div_denominator(w, pow2(7) as int, pow2((9 - l) as nat) as int);
    vstd::arithmetic::div_mod::lemma_div_multiples_vanish_fancy(c, bits_value(src, at + 9, 7), 128);
    vstd::arithmetic::mul::lemma_mul_is_commutative(c, 128);
    assert(w / 128 == c);
    lemma_decode_inverts_code(counts, k, w);
    assert(huff_symbol(src, at, counts, table.spec_values()) == (rs as int, l));
    lemma_window_fields(src, at, l as nat, mag as nat);
}

/// The length a window decodes to is at least the length searched from.
proof fn lemma_decode_length_at_least(counts: Seq<u8>, w: int, l: int)
    requires
        l <= 17,
    ensures
        decode_length_from(counts, w, l) >= l,
    decreases 17 - l,
{
    if l <= 16 && !(w < next_code(counts, l) * pow2((16 - l) as nat)) {
        lemma_decode_length_at_least(counts, w, l + 1);
    }
}

/// A decoded code takes 1 to 16 bits.
proof fn lemma_huff_decode_length(counts: Seq<u8>, w: int)
    ensures
        spec_huff_decode(counts, w) matches Some((l, k)) ==> 1 <= l <= 16,
{
    lemma_decode_length_at_least(counts, w, 1);
}

/// One AC symbol decoded from a stream that advanced by `at` is the one at
/// `at` of the stream it came from.
proof fn lemma_ac_step_shift(
    s0: BitStream,
    r0: ByteReader,
    s1: BitStream,
    r1: ByteReader,
    at: int,
    pos: int,
    block: Seq<i16>,
    counts: Seq<u8>,
    values: Seq<u8>,
)
    requires
        at >= 0,
        advanced(s0, r0, s1, r1, at),
    ensures
        ({
            let (b1, u1, p1, d1) = ac_step(s1.ahead(r1), 0, pos, block, counts, values);
            ac_step(s0.ahead(r0), at, pos, block, counts, values) == (b1, at + u1, p1, d1)
        }),
{
    lemma_advanced_value(s0, r0, s1, r1, at, 0, 16);
    let l = huff_symbol(s1.ahead(r1), 0, counts, values).1;
    lemma_huff_symbol_bounds(s1.ahead(r1), 0, counts, values);
    let s = huff_symbol(s1.ahead(r1), 0, counts, values).0 % 16;
    lemma_advanced_value(s0, r0, s1, r1, at, l, s as nat);
}

/// One symbol of a first AC scan decoded from a stream that advanced by
/// `at` is the one at `at` of the stream it came from.
proof fn lemma_ac_first_step_shift(
    s0: BitStream,
    r0: ByteReader,
    s1: BitStream,
    r1: ByteReader,
    at: int,
    k: int,
    block: Seq<i16>,
    counts: Seq<u8>,
    values: Seq<u8>,
    scale: int,
)
    requires
        at >= 0,
        advanced(s0, r0, s1, r1, at),
    ensures
        match ac_first_step(s1.ahead(r1), 0, k, block, counts, values, scale) {
            Err(_) => ac_first_step(s0.ahead(r0), at, k, block, counts, values, scale) is Err,
            Ok((b1, u1, k1, run)) => ac_first_step(s0.ahead(r0), at, k, block, counts, values, scale)
                == Ok::<(Seq<i16>, int, int, Option<int>), ()>((b1, at + u1, k1, run)),
        },
{
    lemma_advanced_value(s0, r0, s1, r1, at, 0, 16);
    lemma_huff_symbol_bounds(s1.ahead(r1), 0, counts, values);
    let l = huff_symbol(s1.ahead(r1), 0, counts, values).1;
    let rs = huff_symbol(s1.ahead(r1), 0, counts, values).0;
    lemma_advanced_value(s0, r0, s1, r1, at, l, (rs % 16) as nat);
    lemma_advanced_value(s0, r0, s1, r1, at, l, (rs / 16) as nat);
}

/// The symbol a table decodes is a byte and its code takes 1 to 16 bits.
proof fn lemma_huff_symbol_bounds(src: spec_fn(int) -> int, at: int, counts: Seq<u8>, values: Seq<u8>)
    ensures
        0 <= huff_symbol(src, at, counts, values).0 < 256,
        1 <= huff_symbol(src, at, counts, values).1 <= 16,
{
    match spec_huff_decode(counts, bits_value(src, at, 16)) {
        Some((l, k)) => {
            assert(1 <= l <= 16) by {
                lemma_huff_decode_length(counts, bits_value(src, at, 16));
            }
        },
        None => {},
    }
}

/// The fields of a fast AC entry: bits taken, zero run and coefficient.
proof fn lemma_fast_entry_fields(x: i16, k: i16, t: i16)
    by (bit_vector)
    requires
        -128 <= k <= 127,
        0 <= t < 256,
        x == k * 256 + t,
    ensures
        ((x as u16) >> 4) & 15 == (t / 16) as u16,
        (x as u16) & 15 == (t % 16) as u16,
        x >> 8 == k,
{
}

impl BitStream {
    /// Peek `n` bits ahead without discarding them from the buffer
    fn peek_bits(&self, n: u8) -> (r: u64)
        requires
            self.wf(),
            1 <= n <= self.num_bits(),
            n <= 32,
        ensures
            r == self.spec_peek(n as int),
            r < pow2(n as nat),
    {
        let shift = (self.bits_left - n) as u64;
        proof {
            vstd::bits::lemma_u64_shr_is_div(self.buffer, shift);
            lemma_split_bits(self.buffer as int, self.bits_left as int, n as int);
        }
        self.buffer >> shift
    }

    /// Discard the next `n` bits
    fn drop_bits(&mut self, n: u8)
        requires
            old(self).wf(),
            1 <= n <= old(self).num_bits(),
        ensures
            final(self).wf(),
            final(self).num_bits() == old(self).num_bits() - n,
            final(self).held() == old(self).held() % pow2((old(self).num_bits() - n) as nat) as int,
            final(self).marker == old(self).marker,
            final(self).ended() == old(self).ended(),
            final(self).successive_high == old(self).successive_high,
            final(self).successive_low == old(self).successive_low,
            final(self).spec_start == old(self).spec_start,
            final(self).spec_end == old(self).spec_end,
            final(self).eob_run == old(self).eob_run,
    {
        let shift = (self.bits_left - n) as u64;
        proof {
            lemma_split_bits(self.buffer as int, self.bits_left as int, n as int);
            vstd::bits::lemma_u64_pow2_no_overflow(shift as nat);
            vstd::bits::lemma_u64_shl_is_mul(1, shift);
        }
        let modulus: u64 = 1u64 << shift;
        self.buffer = self.buffer % modulus;
        self.bits_left = self.bits_left - n;
    }

    /// Read `n_bits` from the buffer and discard them
    fn get_bits(&mut self, n_bits: u8) -> (r: i32)
        requires
            old(self).wf(),
            1 <= n_bits <= old(self).num_bits(),
            n_bits <= 30,
        ensures
            r == old(self).spec_peek(n_bits as int),
            0 <= r < pow2(n_bits as nat),
            final(self).wf(),
            final(self).num_bits() == old(self).num_bits() - n_bits,
            final(self).held() == old(self).held() % pow2((old(self).num_bits() - n_bits) as nat) as int,
            final(self).marker == old(self).marker,
            final(self).ended() == old(self).ended(),
            final(self).successive_high == old(self).successive_high,
            final(self).successive_low == old(self).successive_low,
            final(self).spec_start == old(self).spec_start,
            final(self).spec_end == old(self).spec_end,
            final(self).eob_run == old(self).eob_run,
    {
        let bits = self.peek_bits(n_bits);
        proof {
            lemma_pow2_strictly_increases(n_bits as nat, 31);
            lemma2_to64();
        }
        self.drop_bits(n_bits);
        bits as i32
    }

    /// Decode the next Huffman coded symbol with `table`.
    ///
    /// The symbol is the value of the code that starts the next sixteen bits
    /// (see `spec_huff_decode`), and its code is consumed; when no code starts
    /// them, sixteen bits are consumed and `None` is returned.
    #[verifier::spinoff_prover]
    pub fn decode_huffman(&mut self, table: &HuffmanTable) -> (res: Option<u8>)
        requires
            old(self).wf(),
            table.wf(),
            old(self).num_bits() >= 16,
        ensures
            final(self).wf(),
            final(self).marker == old(self).marker,
            final(self).ended() == old(self).ended(),
            final(self).successive_high == old(self).successive_high,
            final(self).successive_low == old(self).successive_low,
            final(self).spec_start == old(self).spec_start,
            final(self).spec_end == old(self).spec_end,
            final(self).eob_run == old(self).eob_run,
            match spec_huff_decode(table.spec_counts(), old(self).spec_peek(16)) {
                Some((l, k)) => {
                    &&& res == Some(table.spec_values()[k])
                    &&& 1 <= l <= 16
                    &&& final(self).num_bits() == old(self).num_bits() - l
                    &&& final(self).held() == old(self).held() % pow2(
                        (old(self).num_bits() - l) as nat,
                    ) as int
                },
                None => {
                    &&& res is None
                    &&& final(self).num_bits() == old(self).num_bits() - 16
                    &&& final(self).held() == old(self).held() % pow2(
                        (old(self).num_bits() - 16) as nat,
                    ) as int
                },
            },
    {
        let ghost counts = table.spec_counts();
        let ghost n = total_symbols(counts);
        let w64 = self.peek_bits(16);
        proof {
            lemma2_to64();
        }
        let w = w64 as u32;
        let c = (w >> 7) as usize;
        proof {
            vstd::bits::lemma_u32_shr_is_div(w, 7);
            assert(c < 512);
        }
        let f = table.fast[c];
        if f != 255 {
            let k = f as usize;
            proof {
                let l = code_length(counts, k as int);
                lemma_canonical_code_bounds(counts, k as int);
                // the top `l` bits of the window are the code of symbol `k`
                lemma_pow2_adds(7, (9 - l) as nat);
                vstd::arithmetic::div_mod::lemma_div_denominator(
                    w as int,
                    pow2(7) as int,
                    pow2((9 - l) as nat) as int,
                );
                lemma_decode_inverts_code(counts, k as int, w as int);
            }
            let s = table.size[k];
            self.drop_bits(s);
            return Some(table.values[k]);
        }
        let mut l: usize = 1;
        while l < 16 && w >= table.maxcode[l]
            invariant
                table.wf(),
                counts == table.spec_counts(),
                1 <= l <= 16,
                w < 65536,
                forall|a: int|
                    1 <= a < l ==> w >= #[trigger] next_code(counts, a) * pow2((16 - a) as nat),
            decreases 16 - l,
        {
            l += 1;
        }
        let shift = (16 - l) as u32;
        proof {
            vstd::bits::lemma_u32_shr_is_div(w, shift);
            lemma_pow2_pos(shift as nat);
            lemma_first_index_nonneg(counts, l as int);
            lemma_first_index_monotone(counts, l as int + 1, 17);
            lemma_first_index_monotone(counts, 1, l as int);
            assert(pow2(0) == 1);
            if l < 16 {
                assert(w < table.maxcode@[l as int]);
            }
            if l < 16 || w < next_code(counts, 16) {
                lemma_decode_length_from_is(counts, w as int, 1, l as int);
            } else {
                assert(w >= next_code(counts, 16) * pow2(0));
                lemma_decode_length_from_none(counts, w as int, 1);
            }
            let p = pow2(shift as nat) as int;
            // the window is at or past the first code of length l
            if l >= 2 {
                lemma_window_start(counts, l as int);
                vstd::arithmetic::div_mod::lemma_div_is_ordered(
                    first_code(counts, l as int) * p,
                    w as int,
                    p,
                );
                vstd::arithmetic::div_mod::lemma_div_multiples_vanish(
                    first_code(counts, l as int),
                    p,
                );
            }
            if l < 16 || w < next_code(counts, 16) {
                vstd::arithmetic::mul::lemma_mul_is_commutative(next_code(counts, l as int), p);
                vstd::arithmetic::div_mod::lemma_multiply_divide_lt(
                    w as int,
                    p,
                    next_code(counts, l as int),
                );
            } else {
                assert(p == 1);
                assert(w as int / 1 == w as int);
            }
            assert(0 <= first_code(counts, l as int) <= 65536) by {
                assert(first_code(counts, l as int) <= next_code(counts, l as int));
                assert(next_code(counts, l as int) <= pow2(l as nat));
                lemma_pow2_adds(l as nat, shift as nat);
                if l < 16 {
                    lemma_pow2_strictly_increases(l as nat, 16);
                }
            }
        }
        let ghost q = w as int / pow2(shift as nat) as int;
        assert((w >> shift) as int == q);
        assert(table.delta@[l as int] == first_index(counts, l as int) - first_code(counts, l as int));
        proof {
            if l < 16 || w < next_code(counts, 16) {
                assert(first_code(counts, l as int) <= q < next_code(counts, l as int));
                assert(first_index(counts, l as int + 1) == first_index(counts, l as int) + count_of(counts, l as int));
            } else {
                assert(q == w as int);
                assert(first_index(counts, 17) == first_index(counts, 16) + count_of(counts, 16));
            }
        }
        let idx = (w >> shift) as i32 + table.delta[l];
        if idx >= 0 && (idx as usize) < table.values.len() {
            self.drop_bits(l as u8);
            Some(table.values[idx as usize])
        } else {
            self.drop_bits(16);
            None
        }
    }
}

/// What every block decoder keeps: the stream and the reader stay well formed,
/// the data and the scan parameters do not change.
pub open spec fn stream_step(
    s0: BitStream,
    s1: BitStream,
    r0: ByteReader,
    r1: ByteReader,
) -> bool {
    &&& s1.wf()
    &&& r1.wf()
    &&& r1.bytes() == r0.bytes()
    &&& r0.pos() <= r1.pos()
    &&& s1.successive_high == s0.successive_high
    &&& s1.successive_low == s0.successive_low
    &&& s1.spec_start == s0.spec_start
    &&& s1.spec_end == s0.spec_end
    &&& s0.ended() ==> s1.ended() && s1.marker == s0.marker
    &&& s1.pending(r1) == s0.pending(r0)
}

impl BitStream {
    /// Decode the DC difference of a block and add it to `dc_prediction`.
    ///
    /// A magnitude category above 16, or a missing code, counts as a zero
    /// difference. Returns false when the entropy coded data has ended at a
    /// marker.
    fn decode_dc(
        &mut self,
        reader: &mut ByteReader,
        dc_table: &HuffmanTable,
        dc_prediction: &mut i32,
    ) -> (ok: bool)
        requires
            old(self).wf(),
            old(reader).wf(),
            dc_table.wf(),
        ensures
            stream_step(*old(self), *final(self), *old(reader), *final(reader)),
            final(self).eob_run == old(self).eob_run,
            ok == final(self).marker is None,
            ({
                let (diff, used) = dc_diff(
                    old(self).ahead(*old(reader)),
                    0,
                    dc_table.spec_counts(),
                    dc_table.spec_values(),
                );
                &&& *final(dc_prediction) == (*old(dc_prediction)).wrapping_add(diff as i32)
                &&& advanced(*old(self), *old(reader), *final(self), *final(reader), used)
            }),
    {
        let ghost s0 = *self;
        let ghost r0 = *reader;
        let ghost src = s0.ahead(r0);
        self.refill(reader);
        let ghost s1 = *self;
        let ghost r1 = *reader;
        proof {
            lemma_peek_is_ahead(s1, r1, 16);
            lemma_advanced_value(s0, r0, s1, r1, 0, 0, 16);
        }
        let decoded = self.decode_huffman(dc_table);
        let ghost s2 = *self;
        let ghost l: int = match spec_huff_decode(dc_table.spec_counts(), s1.spec_peek(16)) {
            Some((l, k)) => l,
            None => 16,
        };
        proof {
            lemma_drop_advances(s1, s2, r1, l);
            lemma_advanced_trans(s0, r0, s1, r1, s2, r1, 0, l);
        }
        let symbol = match decoded {
            Some(v) => v,
            None => 0,
        };
        assert(huff_symbol(src, 0, dc_table.spec_counts(), dc_table.spec_values()) == (symbol as int, l));
        let mut diff: i32 = 0;
        if symbol != 0 && symbol <= 16 {
            proof {
                lemma_peek_is_ahead(s2, r1, symbol as nat);
                lemma_advanced_value(s0, r0, s2, r1, l, 0, symbol as nat);
            }
            let r = self.get_bits(symbol);
            proof {
                lemma_drop_advances(s2, *self, r1, symbol as int);
                lemma_advanced_trans(s0, r0, s2, r1, *self, r1, l, symbol as int);
            }
            diff = huff_extend(r, symbol as i32);
        }
        // Update DC prediction
        *dc_prediction = dc_prediction.wrapping_add(diff);
        self.marker.is_none()
    }

    /// Decode one AC symbol of a block at zig-zag position `pos` (see
    /// `ac_step`): returns the zig-zag position after it and whether it ended
    /// the block.
    fn decode_ac_symbol(
        &mut self,
        reader: &mut ByteReader,
        ac_table: &HuffmanTable,
        block: &mut [i16; 64],
        pos: usize,
    ) -> (res: (usize, bool))
        requires
            old(self).wf(),
            old(reader).wf(),
            ac_table.wf(),
            1 <= pos < 64,
        ensures
            stream_step(*old(self), *final(self), *old(reader), *final(reader)),
            final(self).eob_run == old(self).eob_run,
            final(block)[0] == old(block)[0],
            res.0 <= 80,
            res.1 || res.0 > pos,
            ({
                let (b2, used, p2, done) = ac_step(
                    old(self).ahead(*old(reader)),
                    0,
                    pos as int,
                    old(block)@,
                    ac_table.spec_counts(),
                    ac_table.spec_values(),
                );
                &&& final(block)@ == b2
                &&& res.0 == p2
                &&& res.1 == done
                &&& used >= 0
                &&& advanced(*old(self), *old(reader), *final(self), *final(reader), used)
            }),
    {
        let ghost s0 = *self;
        let ghost r0 = *reader;
        let ghost src = s0.ahead(r0);
        let ghost acc = ac_table.spec_counts();
        let ghost acv = ac_table.spec_values();
        proof {
            lemma_un_zigzag_in_block();
            lemma_un_zigzag_tail();
            lemma_ahead_is_bits(s0, r0);
            lemma2_to64();
        }
        self.refill(reader);
        let ghost sb = *self;
        let ghost rb = *reader;
        proof {
            lemma_peek_is_ahead(sb, rb, 9);
            lemma_advanced_value(s0, r0, sb, rb, 0, 0, 9);
            lemma_peek_is_ahead(sb, rb, 16);
            lemma_advanced_value(s0, r0, sb, rb, 0, 0, 16);
            lemma_huff_symbol_bounds(src, 0, acc, acv);
        }
        let c = self.peek_bits(9) as usize;
        assert(c == bits_value(src, 0, 9));
        let fast_ac: i16 = match &ac_table.fast_ac {
            Some(t) => {
                if c < t.len() {
                    t[c]
                } else {
                    0
                }
            },
            None => 0,
        };
        let mut pos = pos;
        if fast_ac != 0 {
            //  FAST AC path
            proof {
                lemma_fast_ac_entry(*ac_table, src, 0);
            }
            let ghost rs = huff_symbol(src, 0, acc, acv).0;
            let ghost l = huff_symbol(src, 0, acc, acv).1;
            let ghost kv = spec_extend(bits_value(src, l, (rs % 16) as nat), rs % 16);
            let bits = fast_ac as u16;
            let run = ((bits >> 4) & 15) as usize;
            let len = (bits & 15) as u8;
            proof {
                lemma_fast_entry_fields(fast_ac, kv as i16, ((rs / 16) * 16 + l + rs % 16) as i16);
            }
            assert(run == rs / 16 && len == l + rs % 16 && fast_ac >> 8 == kv);
            pos += run;
            let zz = if pos < 63 {
                pos
            } else {
                63
            };
            let natural = UN_ZIGZAG[zz];
            assert(natural == UN_ZIGZAG@[pos as int]);
            if natural != 0 {
                block[natural] = fast_ac >> 8;
            }
            if len >= 1 {
                self.drop_bits(len);
            }
            proof {
                lemma_drop_advances(sb, *self, rb, len as int);
                lemma_advanced_trans(s0, r0, sb, rb, *self, *reader, 0, len as int);
            }
            pos += 1;
            (pos, false)
        } else {
            let decoded = self.decode_huffman(ac_table);
            let ghost sc = *self;
            let ghost l: int = match spec_huff_decode(acc, sb.spec_peek(16)) {
                Some((l, k)) => l,
                None => 16,
            };
            proof {
                lemma_drop_advances(sb, sc, rb, l);
                lemma_advanced_trans(s0, r0, sb, rb, sc, rb, 0, l);
            }
            let rs = match decoded {
                Some(v) => v,
                None => 0,
            };
            assert(huff_symbol(src, 0, acc, acv) == (rs as int, l));
            let r = (rs >> 4) as usize;
            let s = rs & 15;
            assert(rs >> 4 <= 15 && rs & 15 <= 15 && rs >> 4 == rs / 16 && rs & 15 == rs % 16) by (bit_vector);
            if s != 0 {
                pos += r;
                proof {
                    lemma_peek_is_ahead(sc, rb, s as nat);
                    lemma_advanced_value(s0, r0, sc, rb, l, 0, s as nat);
                }
                let v = self.get_bits(s);
                proof {
                    lemma_drop_advances(sc, *self, rb, s as int);
                    lemma_advanced_trans(s0, r0, sc, rb, *self, *reader, l, s as int);
                }
                let natural = UN_ZIGZAG[pos];
                if natural != 0 {
                    block[natural] = huff_extend(v, s as i32) as i16;
                }
                pos += 1;
                (pos, false)
            } else if r != 15 {
                (pos, true)
            } else {
                // a run of sixteen zero coefficients
                pos += 16;
                (pos, false)
            }
        }
    }

    /// Decode a Minimum Code Unit(MCU) block: its DC difference (added to
    /// `dc_prediction`, which becomes the block's first coefficient) and its
    /// AC coefficients, written at their natural-order positions.
    ///
    /// Returns false when the entropy coded data has ended at a marker; the
    /// rest of the block is then decoded from zero bits.
    pub fn decode_mcu_block(
        &mut self,
        reader: &mut ByteReader,
        dc_table: &HuffmanTable,
        ac_table: &HuffmanTable,
        block: &mut [i16; 64],
        dc_prediction: &mut i32,
    ) -> (ok: bool)
        requires
            old(self).wf(),
            old(reader).wf(),
            dc_table.wf(),
            ac_table.wf(),
        ensures
            stream_step(*old(self), *final(self), *old(reader), *final(reader)),
            final(self).eob_run == old(self).eob_run,
            ok == final(self).marker is None,
            final(self).marker == if final(self).ended() {
                match old(self).pending(*old(reader)) {
                    Some((m, q)) => Some(m),
                    None => None,
                }
            } else {
                None::<Marker>
            },
            final(self).ended() ==> (old(self).pending(*old(reader)) matches Some((m, q)) ==> final(reader).pos()
                == q),
            final(block)[0] == #[verifier::truncate] (*final(dc_prediction) as i16),
            ({
                let src = old(self).ahead(*old(reader));
                let (diff, u1) = dc_diff(src, 0, dc_table.spec_counts(), dc_table.spec_values());
                let pred = (*old(dc_prediction)).wrapping_add(diff as i32);
                let (coeffs, used) = ac_coeffs(
                    src,
                    u1,
                    1,
                    old(block)@.update(0, #[verifier::truncate] (pred as i16)),
                    ac_table.spec_counts(),
                    ac_table.spec_values(),
                );
                &&& *final(dc_prediction) == pred
                &&& final(block)@ == coeffs
                &&& advanced(*old(self), *old(reader), *final(self), *final(reader), used)
            }),
    {
        let ghost s0 = *self;
        let ghost r0 = *reader;
        let ghost src = s0.ahead(r0);
        let ghost acc = ac_table.spec_counts();
        let ghost acv = ac_table.spec_values();
        // decode DC, dc prediction will contain the value
        self.decode_dc(reader, dc_table, dc_prediction);
        let ghost u1 = dc_diff(src, 0, dc_table.spec_counts(), dc_table.spec_values()).1;
        // set dc to be the dc prediction.
        block[0] = #[verifier::truncate] (*dc_prediction as i16);
        let ghost target = ac_coeffs(src, u1, 1, block@, acc, acv);
        let ghost pred = *dc_prediction;
        assert(block@ =~= old(block)@.update(0, #[verifier::truncate] (pred as i16)));
        let ghost mut at: int = u1;
        proof {
            lemma_huff_symbol_bounds(src, 0, dc_table.spec_counts(), dc_table.spec_values());
        }
        // Decode AC coefficients
        let mut pos: usize = 1;
        while pos < 64
            invariant
                stream_step(*old(self), *self, *old(reader), *reader),
                self.eob_run == old(self).eob_run,
                dc_table.wf(),
                ac_table.wf(),
                1 <= pos <= 80,
                block[0] == #[verifier::truncate] (*dc_prediction as i16),
                *dc_prediction == pred,
                pred == (*old(dc_prediction)).wrapping_add(
                    dc_diff(src, 0, dc_table.spec_counts(), dc_table.spec_values()).0 as i32,
                ),
                u1 == dc_diff(src, 0, dc_table.spec_counts(), dc_table.spec_values()).1,
                target == ac_coeffs(
                    src,
                    u1,
                    1,
                    old(block)@.update(0, #[verifier::truncate] (pred as i16)),
                    acc,
                    acv,
                ),
                s0 == *old(self),
                r0 == *old(reader),
                src == s0.ahead(r0),
                acc == ac_table.spec_counts(),
                acv == ac_table.spec_values(),
                at >= 0,
                advanced(s0, r0, *self, *reader, at),
                ac_coeffs(src, at, pos as int, block@, acc, acv) == target,
            decreases 80 - pos,
        {
            let ghost sa = *self;
            let ghost ra = *reader;
            let ghost before = block@;
            let (next, done) = self.decode_ac_symbol(reader, ac_table, block, pos);
            let ghost used = ac_step(sa.ahead(ra), 0, pos as int, before, acc, acv).1;
            proof {
                lemma_ac_step_shift(s0, r0, sa, ra, at, pos as int, before, acc, acv);
                lemma_advanced_trans(s0, r0, sa, ra, *self, *reader, at, used);
                at = at + used;
            }
            if done {
                return self.marker.is_none();
            }
            pos = next;
        }
        self.marker.is_none()
    }

    /// Decode the DC coefficient of a block in a progressive scan.
    ///
    /// In a first scan (`successive_high == 0`) the DC difference is decoded,
    /// added to `dc_prediction`, and the block's first coefficient becomes the
    /// prediction scaled by `2^successive_low`. In a refinement scan one bit is
    /// read, and when it is set `2^successive_low` is added to the coefficient.
    /// Fails when the scan also holds AC coefficients.
    pub fn decode_block_dc(
        &mut self,
        reader: &mut ByteReader,
        dc_table: &HuffmanTable,
        block: &mut [i16; 64],
        dc_prediction: &mut i32,
    ) -> (res: Result<bool, DecodeErrors>)
        requires
            old(self).wf(),
            old(reader).wf(),
            dc_table.wf(),
            old(self).successive_low < 16,
        ensures
            stream_step(*old(self), *final(self), *old(reader), *final(reader)),
            final(self).eob_run == old(self).eob_run,
            old(self).spec_end != 0 <==> (res matches Err(DecodeErrors::HuffmanDecode(_))),
            old(self).spec_end == 0 ==> res == Ok::<bool, DecodeErrors>(true),
            old(self).spec_end != 0 ==> *final(self) == *old(self) && *final(reader) == *old(reader) && *final(block) == *old(block) && *final(dc_prediction) == *old(dc_prediction),
            old(self).spec_end == 0 && old(self).successive_high == 0 ==> final(block)[0] == (((
            *final(dc_prediction) as i16) as int) * pow2(old(self).successive_low as nat)) as i16,
            forall|i: int| 1 <= i < 64 ==> #[trigger] final(block)[i] == old(block)[i],
            old(self).successive_high != 0 ==> *final(dc_prediction) == *old(dc_prediction),
            old(self).spec_end == 0 && old(self).successive_high == 0 ==> ({
                let (diff, used) = dc_diff(
                    old(self).ahead(*old(reader)),
                    0,
                    dc_table.spec_counts(),
                    dc_table.spec_values(),
                );
                &&& *final(dc_prediction) == (*old(dc_prediction)).wrapping_add(diff as i32)
                &&& advanced(*old(self), *old(reader), *final(self), *final(reader), used)
            }),
            old(self).spec_end == 0 && old(self).successive_high != 0 ==> {
                &&& advanced(*old(self), *old(reader), *final(self), *final(reader), 1)
                &&& final(block)[0] == if old(self).bit_ahead(*old(reader), 0) == 1 {
                    #[verifier::truncate] ((old(block)[0] + pow2(old(self).successive_low as nat)) as i16)
                } else {
                    old(block)[0]
                }
            },
    {
        if self.spec_end != 0 {
            return Err(
                DecodeErrors::HuffmanDecode(message("Can't merge dc and AC corrupt jpeg")),
            );
        }
        if self.successive_high == 0 {
            self.decode_dc(reader, dc_table, dc_prediction);
            proof {
                lemma_pow2_strictly_increases(self.successive_low as nat, 16);
                lemma2_to64();
                vstd::bits::lemma_u32_shl_is_mul(1, self.successive_low as u32);
            }
            let scale: i32 = (1u32 << (self.successive_low as u32)) as i32;
            let dc = (#[verifier::truncate] (*dc_prediction as i16)) as i32;
            assert(-32768 * 32768 <= dc * scale <= 32768 * 32768) by (nonlinear_arith)
                requires
                    -32768 <= dc <= 32767,
                    0 < scale <= 32768,
            ;
            block[0] = #[verifier::truncate] ((dc * scale) as i16);
        } else {
            // refinement scan
            if self.get_bit(reader) {
                proof {
                    lemma_pow2_strictly_increases(self.successive_low as nat, 16);
                    lemma2_to64();
                    vstd::bits::lemma_u32_shl_is_mul(1, self.successive_low as u32);
                }
                let add: i32 = (1u32 << (self.successive_low as u32)) as i32;
                block[0] = #[verifier::truncate] ((block[0] as i32 + add) as i16);
            }
        }
        Ok(true)
    }

    /// Decode one symbol of a block in the first scan of a band of AC
    /// coefficients (see `ac_first_step`); a symbol that starts an
    /// end-of-band run stores it. Returns the zig-zag position after the
    /// symbol and whether it started a run.
    #[verifier::spinoff_prover]
    #[verifier::rlimit(40)]
    fn decode_ac_first_symbol(
        &mut self,
        reader: &mut ByteReader,
        ac_table: &HuffmanTable,
        block: &mut [i16; 64],
        k: usize,
        scale: i32,
    ) -> (res: Result<(usize, bool), DecodeErrors>)
        requires
            old(self).wf(),
            old(reader).wf(),
            ac_table.wf(),
            1 <= k < 64,
            0 < scale <= 32768,
        ensures
            stream_step(*old(self), *final(self), *old(reader), *final(reader)),
            res matches Err(e) ==> e is HuffmanDecode,
            res matches Ok((k2, ended)) ==> k2 <= 80 && (ended || k2 > k),
            final(block)[0] == old(block)[0],
            final(self).eob_run >= 0 || final(self).eob_run == old(self).eob_run,
            match ac_first_step(
                old(self).ahead(*old(reader)),
                0,
                k as int,
                old(block)@,
                ac_table.spec_counts(),
                ac_table.spec_values(),
                scale as int,
            ) {
                Err(_) => res is Err,
                Ok((b2, used, k2, run)) => {
                    &&& res matches Ok((kk, ended)) && kk == k2 && ended == run is Some
                    &&& final(block)@ == b2
                    &&& used >= 0
                    &&& advanced(*old(self), *old(reader), *final(self), *final(reader), used)
                    &&& final(self).eob_run == match run {
                        Some(e) => e,
                        None => old(self).eob_run as int,
                    }
                },
            },
    {
        let ghost s0 = *self;
        let ghost r0 = *reader;
        let ghost src = s0.ahead(r0);
        let ghost acc = ac_table.spec_counts();
        let ghost acv = ac_table.spec_values();
        proof {
            lemma_un_zigzag_in_block();
            lemma_ahead_is_bits(s0, r0);
            lemma2_to64();
        }
        self.refill(reader);
        let ghost sb = *self;
        let ghost rb = *reader;
        proof {
            lemma_peek_is_ahead(sb, rb, 9);
            lemma_advanced_value(s0, r0, sb, rb, 0, 0, 9);
            lemma_peek_is_ahead(sb, rb, 16);
            lemma_advanced_value(s0, r0, sb, rb, 0, 0, 16);
            lemma_huff_decode_length(acc, bits_value(src, 0, 16));
        }
        let c = self.peek_bits(9) as usize;
        assert(c == bits_value(src, 0, 9));
        let fast_ac: i16 = match &ac_table.fast_ac {
            Some(t) => {
                if c < t.len() {
                    t[c]
                } else {
                    0
                }
            },
            None => 0,
        };
        let mut k = k;
        if fast_ac != 0 {
            // fast-AC path
            proof {
                lemma_fast_ac_entry(*ac_table, src, 0);
            }
            let ghost rs = huff_symbol(src, 0, acc, acv).0;
            let ghost l = huff_symbol(src, 0, acc, acv).1;
            let ghost kv = spec_extend(bits_value(src, l, (rs % 16) as nat), rs % 16);
            let bits = fast_ac as u16;
            let run = ((bits >> 4) & 15) as usize;
            let len = (bits & 15) as u8;
            proof {
                lemma_fast_entry_fields(fast_ac, kv as i16, ((rs / 16) * 16 + l + rs % 16) as i16);
            }
            assert(run == rs / 16 && len == l + rs % 16 && fast_ac >> 8 == kv);
            k += run;
            if len >= 1 {
                self.drop_bits(len);
            }
            proof {
                lemma_drop_advances(sb, *self, rb, len as int);
                lemma_advanced_trans(s0, r0, sb, rb, *self, *reader, 0, len as int);
            }
            let natural = UN_ZIGZAG[k];
            let value = (fast_ac >> 8) as i32;
            assert(-128 * 32768 <= value * scale <= 127 * 32768) by (nonlinear_arith)
                requires
                    -128 <= value <= 127,
                    0 < scale <= 32768,
            ;
            if natural != 0 {
                block[natural] = #[verifier::truncate] ((value * scale) as i16);
            }
            k += 1;
            Ok((k, false))
        } else {
            let decoded = self.decode_huffman(ac_table);
            let ghost sc = *self;
            let ghost l: int = match spec_huff_decode(acc, sb.spec_peek(16)) {
                Some((l, idx)) => l,
                None => 16,
            };
            proof {
                lemma_drop_advances(sb, sc, rb, l);
                lemma_advanced_trans(s0, r0, sb, rb, sc, rb, 0, l);
            }
            let rs = match decoded {
                Some(v) => v,
                None => {
                    return Err(DecodeErrors::HuffmanDecode(message("Bad Huffman code")));
                },
            };
            let s = rs & 15;
            let r = rs >> 4;
            assert(rs >> 4 <= 15 && rs & 15 <= 15 && rs >> 4 == rs / 16 && rs & 15 == rs % 16) by (bit_vector);
            if s == 0 {
                if r < 15 {
                    proof {
                        lemma2_to64();
                        lemma_pow2_strictly_increases(r as nat, 16);
                        vstd::bits::lemma_u32_shl_is_mul(1, r as u32);
                    }
                    let mut run = (1u32 << (r as u32)) as i32;
                    if r != 0 {
                        proof {
                            lemma_peek_is_ahead(sc, rb, r as nat);
                            lemma_advanced_value(s0, r0, sc, rb, l, 0, r as nat);
                        }
                        run = run + self.get_bits(r);
                        proof {
                            lemma_drop_advances(sc, *self, rb, r as int);
                            lemma_advanced_trans(s0, r0, sc, rb, *self, *reader, l, r as int);
                        }
                    }
                    assert(run == pow2(r as nat) + bits_value(src, l, r as nat));
                    assert(advanced(s0, r0, *self, *reader, l + r));
                    let ghost sd = *self;
                    self.eob_run = run - 1;
                    assert forall|i: int| 0 <= i implies #[trigger] self.bit_ahead(*reader, i) == sd.bit_ahead(
                        *reader,
                        i,
                    ) by {}
                    assert(advanced(s0, r0, *self, *reader, l + r));
                    return Ok((k, true));
                }
                k += 16;
                Ok((k, false))
            } else {
                k += r as usize;
                proof {
                    lemma_peek_is_ahead(sc, rb, s as nat);
                    lemma_advanced_value(s0, r0, sc, rb, l, 0, s as nat);
                }
                let v = self.get_bits(s);
                proof {
                    lemma_drop_advances(sc, *self, rb, s as int);
                    lemma_advanced_trans(s0, r0, sc, rb, *self, *reader, l, s as int);
                }
                let value = huff_extend(v, s as i32);
                proof {
                    lemma2_to64();
                    if s < 15 {
                        lemma_pow2_strictly_increases(s as nat, 15);
                    }
                }
                let natural = UN_ZIGZAG[k];
                assert(-32768 * 32768 <= value * scale <= 32768 * 32768) by (nonlinear_arith)
                    requires
                        -32768 <= value <= 32768,
                        0 < scale <= 32768,
                ;
                if natural != 0 {
                    block[natural] = #[verifier::truncate] ((value * scale) as i16);
                }
                k += 1;
                Ok((k, false))
            }
        }
    }

    /// Decode the AC coefficients `spec_start..=spec_end` of a block in the
    /// first progressive scan of that band, scaled by `2^successive_low`.
    ///
    /// An end-of-band run left by an earlier block is used up first; a new
    /// run ends the block. Fails when the scan also holds the DC coefficient or
    /// a code is not in the table.
    pub fn decode_mcu_ac_first(
        &mut self,
        reader: &mut ByteReader,
        ac_table: &HuffmanTable,
        block: &mut [i16; 64],
    ) -> (res: Result<bool, DecodeErrors>)
        requires
            old(self).wf(),
            old(reader).wf(),
            ac_table.wf(),
            old(self).successive_low < 16,
            old(self).spec_start < 64,
            old(self).spec_end < 64,
        ensures
            stream_step(*old(self), *final(self), *old(reader), *final(reader)),
            old(self).spec_start == 0 ==> (res matches Err(DecodeErrors::HuffmanDecode(_))),
            res matches Err(e) ==> e is HuffmanDecode,
            old(self).spec_start != 0 && old(self).eob_run > 0 ==> res is Ok && final(self).eob_run
                == old(self).eob_run - 1 && *final(block) == *old(block) && *final(reader)
                == *old(reader) && advanced(*old(self), *old(reader), *final(self), *final(reader), 0),
            final(block)[0] == old(block)[0],
            final(self).eob_run >= 0 || final(self).eob_run == old(self).eob_run,
            old(self).spec_start != 0 && old(self).eob_run <= 0 ==> match ac_first_coeffs(
                old(self).ahead(*old(reader)),
                0,
                old(self).spec_start as int,
                old(self).spec_end as int,
                old(block)@,
                ac_table.spec_counts(),
                ac_table.spec_values(),
                pow2(old(self).successive_low as nat) as int,
                old(self).eob_run as int,
            ) {
                Err(_) => res is Err,
                Ok((b, used, eob)) => {
                    &&& res is Ok
                    &&& final(block)@ == b
                    &&& final(self).eob_run == eob
                    &&& advanced(*old(self), *old(reader), *final(self), *final(reader), used)
                },
            },
    {
        if self.spec_start == 0 {
            return Err(
                DecodeErrors::HuffmanDecode(message("Can't merge dc and AC corrupt jpeg")),
            );
        }
        if self.eob_run > 0 {
            self.eob_run = self.eob_run - 1;
            return Ok(true);
        }
        proof {
            lemma_un_zigzag_in_block();
            lemma_pow2_strictly_increases(self.successive_low as nat, 16);
            lemma2_to64();
            vstd::bits::lemma_u32_shl_is_mul(1, self.successive_low as u32);
        }
        let scale: i32 = (1u32 << (self.successive_low as u32)) as i32;
        let end = self.spec_end as usize;
        let mut k = self.spec_start as usize;
        let ghost s0 = *self;
        let ghost r0 = *reader;
        let ghost src = s0.ahead(r0);
        let ghost acc = ac_table.spec_counts();
        let ghost acv = ac_table.spec_values();
        let ghost target = ac_first_coeffs(
            src,
            0,
            k as int,
            end as int,
            block@,
            acc,
            acv,
            scale as int,
            s0.eob_run as int,
        );
        let ghost mut at: int = 0;
        assert(block@[0] == old(block)[0]);
        while k <= end
            invariant
                stream_step(*old(self), *self, *old(reader), *reader),
                old(self).eob_run <= 0,
                old(self).spec_start != 0,
                self.eob_run == old(self).eob_run,
                ac_table.wf(),
                end == self.spec_end,
                end < 64,
                1 <= k <= 80,
                0 < scale <= 32768,
                scale == pow2(old(self).successive_low as nat),
                block[0] == old(block)[0],
                s0 == *old(self),
                r0 == *old(reader),
                src == s0.ahead(r0),
                acc == ac_table.spec_counts(),
                acv == ac_table.spec_values(),
                target == ac_first_coeffs(
                    src,
                    0,
                    old(self).spec_start as int,
                    end as int,
                    old(block)@,
                    acc,
                    acv,
                    scale as int,
                    s0.eob_run as int,
                ),
                at >= 0,
                advanced(s0, r0, *self, *reader, at),
                ac_first_coeffs(src, at, k as int, end as int, block@, acc, acv, scale as int, s0.eob_run as int)
                    == target,
            decreases 80 - k,
        {
            let ghost sa = *self;
            let ghost ra = *reader;
            let ghost before = block@;
            let step = self.decode_ac_first_symbol(reader, ac_table, block, k, scale);
            proof {
                lemma_ac_first_step_shift(s0, r0, sa, ra, at, k as int, before, acc, acv, scale as int);
            }
            let (next, ended) = match step {
                Ok(v) => v,
                Err(e) => {
                    return Err(e);
                },
            };
            let ghost used = ac_first_step(sa.ahead(ra), 0, k as int, before, acc, acv, scale as int)->Ok_0.1;
            proof {
                lemma_advanced_trans(s0, r0, sa, ra, *self, *reader, at, used);
                at = at + used;
                assert(block@[0] == before[0]) by {
                    lemma_un_zigzag_in_block();
                }
            }
            if ended {
                return Ok(true);
            }
            k = next;
        }
        Ok(true)
    }

    /// Refine a nonzero coefficient: when the next bit is set and the
    /// coefficient does not have `bit` yet, move it `bit` away from zero.
    fn refine_coefficient(&mut self, reader: &mut ByteReader, p: i16, bit: i32) -> (r: i16)
        requires
            old(self).wf(),
            old(reader).wf(),
            0 < bit <= 32768,
        ensures
            stream_step(*old(self), *final(self), *old(reader), *final(reader)),
            final(self).eob_run == old(self).eob_run,
            r == refined(p, old(self).bit_ahead(*old(reader), 0), bit),
            advanced(*old(self), *old(reader), *final(self), *final(reader), 1),
    {
        if self.get_bit(reader) {
            let pv = p as i32;
            if pv & bit == 0 {
                if pv > 0 {
                    return #[verifier::truncate] ((pv + bit) as i16);
                } else {
                    return #[verifier::truncate] ((pv - bit) as i16);
                }
            }
        }
        p
    }

    /// Go through the coefficients of a refinement scan from zig-zag
    /// position `k` up to `end` (see `refine_run`), the stream having advanced
    /// by `at` from `(s0, r0)`. Returns the zig-zag position after the run and
    /// the position in the bits of `(s0, r0)` after the bits taken.
    #[verifier::spinoff_prover]
    #[verifier::rlimit(40)]
    fn refine_run_exec(
        &mut self,
        reader: &mut ByteReader,
        block: &mut [i16; 64],
        k: usize,
        end: usize,
        r: i32,
        value: i32,
        bit: i32,
        Ghost(s0): Ghost<BitStream>,
        Ghost(r0): Ghost<ByteReader>,
        Ghost(at): Ghost<int>,
    ) -> (res: (usize, Ghost<int>))
        requires
            old(self).wf(),
            old(reader).wf(),
            1 <= k <= 64,
            end < 64,
            0 <= r <= 64,
            0 < bit <= 32768,
            -32768 <= value <= 32768,
            at >= 0,
            advanced(s0, r0, *old(self), *old(reader), at),
        ensures
            stream_step(*old(self), *final(self), *old(reader), *final(reader)),
            final(self).eob_run == old(self).eob_run,
            final(block)[0] == old(block)[0],
            ({
                let (b2, at2, k2) = refine_run(s0.ahead(r0), at, k as int, end as int, r as int, value as int, old(block)@, bit);
                &&& final(block)@ == b2
                &&& res.0 == k2
                &&& res.1@ == at2
                &&& at2 >= at
                &&& advanced(s0, r0, *final(self), *final(reader), at2)
            }),
            k <= res.0 <= 64,
            k <= end ==> res.0 > k,
            r >= 64 - k ==> res.0 > end,
    {
        proof {
            lemma_un_zigzag_in_block();
            lemma_un_zigzag_injective();
        }
        let ghost src = s0.ahead(r0);
        let ghost target = refine_run(src, at, k as int, end as int, r as int, value as int, block@, bit);
        let ghost mut cur: int = at;
        let ghost r_in = r;
        let ghost k_in = k;
        let mut k = k;
        let mut r = r;
        let mut placed = false;
        while k <= end && !placed
            invariant
                stream_step(*old(self), *self, *old(reader), *reader),
                self.eob_run == old(self).eob_run,
                k_in <= k <= 64,
                placed ==> k > k_in,
                end < 64,
                0 <= r <= 64,
                0 < bit <= 32768,
                -32768 <= value <= 32768,
                block[0] == old(block)[0],
                UN_ZIGZAG@.len() == 80,
                forall|i: int| 0 <= i < 80 ==> #[trigger] UN_ZIGZAG@[i] < 64,
                forall|i: int| 0 <= i < 64 ==> spec_zigzag_of(#[trigger] UN_ZIGZAG@[i] as int) == i,
                src == s0.ahead(r0),
                target == refine_run(src, at, k_in as int, end as int, r_in as int, value as int, old(block)@, bit),
                at >= 0,
                cur >= at,
                advanced(s0, r0, *self, *reader, cur),
                !placed ==> refine_run(src, cur, k as int, end as int, r as int, value as int, block@, bit) == target,
                placed ==> (block@, cur, k as int) == target,
                r_in >= 64 - k_in ==> r >= 64 - k && !placed,
            decreases 64 - k,
        {
            let natural = UN_ZIGZAG[k];
            assert(natural != 0 || k == 0) by {
                if natural == 0 {
                    assert(spec_zigzag_of(UN_ZIGZAG@[k as int] as int) == k);
                }
            }
            k += 1;
            let p = block[natural];
            if p != 0 {
                if natural != 0 {
                    let ghost sa = *self;
                    let ghost ra = *reader;
                    let q = self.refine_coefficient(reader, p, bit);
                    proof {
                        assert(sa.bit_ahead(ra, 0) == s0.bit_ahead(r0, 0 + cur));
                        lemma_advanced_trans(s0, r0, sa, ra, *self, *reader, cur, 1);
                        cur = cur + 1;
                    }
                    block[natural] = q;
                }
            } else {
                if r == 0 {
                    if natural != 0 {
                        block[natural] = #[verifier::truncate] (value as i16);
                    }
                    placed = true;
                } else {
                    r -= 1;
                }
            }
        }
        (k, Ghost(cur))
    }

    /// Decode one symbol of a block in a refinement scan of a band of AC
    /// coefficients (see `refine_step`), the stream having advanced by `at`
    /// from `(s0, r0)`; a symbol that starts an end-of-band run stores it.
    /// Returns the zig-zag position after the symbol, whether it started a
    /// run and the position in the bits of `(s0, r0)` after the bits taken.
    #[verifier::spinoff_prover]
    #[verifier::rlimit(40)]
    fn decode_refine_symbol(
        &mut self,
        reader: &mut ByteReader,
        ac_table: &HuffmanTable,
        block: &mut [i16; 64],
        k: usize,
        end: usize,
        bit: i32,
        Ghost(s0): Ghost<BitStream>,
        Ghost(r0): Ghost<ByteReader>,
        Ghost(at): Ghost<int>,
    ) -> (res: Result<(usize, bool, Ghost<int>), DecodeErrors>)
        requires
            old(self).wf(),
            old(reader).wf(),
            ac_table.wf(),
            1 <= k <= end,
            end < 64,
            0 < bit <= 32768,
            at >= 0,
            advanced(s0, r0, *old(self), *old(reader), at),
        ensures
            stream_step(*old(self), *final(self), *old(reader), *final(reader)),
            res matches Err(e) ==> e is HuffmanDecode,
            final(block)[0] == old(block)[0],
            final(self).eob_run >= 0 || final(self).eob_run == old(self).eob_run,
            res matches Ok((k2, ended, _)) ==> k < k2 <= 64 && (ended ==> k2 > end),
            match refine_step(
                s0.ahead(r0),
                at,
                k as int,
                end as int,
                old(block)@,
                ac_table.spec_counts(),
                ac_table.spec_values(),
                bit,
            ) {
                Err(_) => res is Err,
                Ok((b2, at2, k2, run)) => {
                    &&& res matches Ok((kk, ended, g)) && kk == k2 && ended == run is Some && g@ == at2
                    &&& final(block)@ == b2
                    &&& at2 >= at
                    &&& advanced(s0, r0, *final(self), *final(reader), at2)
                    &&& final(self).eob_run == match run {
                        Some(e) => e,
                        None => old(self).eob_run as int,
                    }
                },
            },
    {
        let ghost src = s0.ahead(r0);
        let ghost acc = ac_table.spec_counts();
        let ghost acv = ac_table.spec_values();
        let ghost sa = *self;
        let ghost ra = *reader;
        self.refill(reader);
        let ghost sb = *self;
        let ghost rb = *reader;
        proof {
            lemma_advanced_trans(s0, r0, sa, ra, sb, rb, at, 0);
            lemma_peek_is_ahead(sb, rb, 16);
            lemma_advanced_value(s0, r0, sb, rb, at, 0, 16);
            lemma_huff_decode_length(acc, bits_value(src, at, 16));
        }
        let decoded = self.decode_huffman(ac_table);
        let ghost sc = *self;
        let ghost l: int = match spec_huff_decode(acc, sb.spec_peek(16)) {
            Some((l, idx)) => l,
            None => 16,
        };
        proof {
            lemma_drop_advances(sb, sc, rb, l);
            lemma_advanced_trans(s0, r0, sb, rb, sc, rb, at, l);
        }
        let rs = match decoded {
            Some(v) => v,
            None => {
                return Err(DecodeErrors::HuffmanDecode(message("Bad Huffman code")));
            },
        };
        let s = rs & 15;
        let mut r = (rs >> 4) as i32;
        assert(rs >> 4 <= 15 && rs & 15 <= 15 && rs >> 4 == rs / 16 && rs & 15 == rs % 16) by (bit_vector);
        let mut value: i32 = 0;
        let mut ended = false;
        let ghost mut pos: int = at + l;
        if s == 0 {
            if r < 15 {
                proof {
                    lemma2_to64();
                    lemma_pow2_strictly_increases(r as nat, 16);
                    vstd::bits::lemma_u32_shl_is_mul(1, r as u32);
                }
                let mut run = (1u32 << (r as u32)) as i32 - 1;
                if r != 0 {
                    proof {
                        lemma_peek_is_ahead(sc, rb, r as nat);
                        lemma_advanced_value(s0, r0, sc, rb, at + l, 0, r as nat);
                    }
                    run = run + self.get_bits(r as u8);
                    proof {
                        lemma_drop_advances(sc, *self, rb, r as int);
                        lemma_advanced_trans(s0, r0, sc, rb, *self, *reader, at + l, r as int);
                    }
                }
                proof {
                    pos = at + l + r;
                }
                assert(run == pow2(r as nat) - 1 + bits_value(src, at + l, r as nat));
                let ghost sd = *self;
                self.eob_run = run;
                assert forall|i: int| 0 <= i implies #[trigger] self.bit_ahead(*reader, i) == sd.bit_ahead(
                    *reader,
                    i,
                ) by {}
                // force end of block
                r = 64;
                ended = true;
            }
            // r == 15: a run of sixteen zero coefficients, placed below
        } else {
            if s != 1 {
                return Err(DecodeErrors::HuffmanDecode(message("Bad Huffman code")));
            }
            // sign bit
            let ghost se = *self;
            let ghost re = *reader;
            let sign = self.get_bit(reader);
            proof {
                assert(se.bit_ahead(re, 0) == s0.bit_ahead(r0, 0 + (at + l)));
                lemma_advanced_trans(s0, r0, se, re, *self, *reader, at + l, 1);
                pos = at + l + 1;
            }
            if sign {
                value = bit;
            } else {
                value = -bit;
            }
        }
        let (k2, g) = self.refine_run_exec(reader, block, k, end, r, value, bit, Ghost(s0), Ghost(r0), Ghost(pos));
        Ok((k2, ended, g))
    }

    /// Refine the AC coefficients `spec_start..=spec_end` of a block in a
    /// successive approximation scan: nonzero coefficients may gain the bit
    /// `2^successive_low`, and one new coefficient of that size may appear
    /// after the announced run of zero coefficients.
    ///
    /// Fails when the scan also holds the DC coefficient, a code is not in
    /// the table, or a new coefficient is larger than one bit.
    pub fn decode_mcu_ac_refine(
        &mut self,
        reader: &mut ByteReader,
        ac_table: &HuffmanTable,
        block: &mut [i16; 64],
    ) -> (res: Result<bool, DecodeErrors>)
        requires
            old(self).wf(),
            old(reader).wf(),
            ac_table.wf(),
            old(self).successive_low < 16,
            old(self).spec_start < 64,
            old(self).spec_end < 64,
        ensures
            stream_step(*old(self), *final(self), *old(reader), *final(reader)),
            old(self).spec_start == 0 ==> (res matches Err(DecodeErrors::HuffmanDecode(_))),
            res matches Err(e) ==> e is HuffmanDecode,
            final(block)[0] == old(block)[0],
            old(self).spec_start != 0 && old(self).eob_run > 0 ==> ({
                let (b, used, _) = refine_run(
                    old(self).ahead(*old(reader)),
                    0,
                    old(self).spec_start as int,
                    old(self).spec_end as int,
                    64,
                    0,
                    old(block)@,
                    pow2(old(self).successive_low as nat) as i32,
                );
                &&& res is Ok
                &&& final(self).eob_run == old(self).eob_run - 1
                &&& final(block)@ == b
                &&& advanced(*old(self), *old(reader), *final(self), *final(reader), used)
            }),
            old(self).spec_start != 0 && old(self).eob_run <= 0 ==> match refine_coeffs(
                old(self).ahead(*old(reader)),
                0,
                old(self).spec_start as int,
                old(self).spec_end as int,
                old(block)@,
                ac_table.spec_counts(),
                ac_table.spec_values(),
                pow2(old(self).successive_low as nat) as i32,
                old(self).eob_run as int,
            ) {
                Err(_) => res is Err,
                Ok((b, used, eob)) => {
                    &&& res is Ok
                    &&& final(block)@ == b
                    &&& final(self).eob_run == eob
                    &&& advanced(*old(self), *old(reader), *final(self), *final(reader), used)
                },
            },
    {
        if self.spec_start == 0 {
            return Err(
                DecodeErrors::HuffmanDecode(message("Can't merge dc and AC corrupt jpeg")),
            );
        }
        proof {
            lemma_un_zigzag_in_block();
            lemma_pow2_strictly_increases(self.successive_low as nat, 16);
            lemma2_to64();
            vstd::bits::lemma_u32_shl_is_mul(1, self.successive_low as u32);
        }
        let bit: i32 = (1u32 << (self.successive_low as u32)) as i32;
        let end = self.spec_end as usize;
        let mut k = self.spec_start as usize;
        let ghost s0 = *self;
        let ghost r0 = *reader;
        let ghost src = s0.ahead(r0);
        let ghost acc = ac_table.spec_counts();
        let ghost acv = ac_table.spec_values();
        if self.eob_run > 0 {
            self.eob_run = self.eob_run - 1;
            assert forall|i: int| 0 <= i implies #[trigger] self.bit_ahead(*reader, i) == s0.bit_ahead(
                r0,
                i + 0,
            ) by {}
            self.refine_run_exec(reader, block, k, end, 64, 0, bit, Ghost(s0), Ghost(r0), Ghost(0));
            return Ok(true);
        }
        let ghost mut at: int = 0;
        assert(advanced(s0, r0, *self, *reader, 0));
        while k <= end
            invariant
                stream_step(*old(self), *self, *old(reader), *reader),
                ac_table.wf(),
                old(self).spec_start != 0,
                old(self).eob_run <= 0,
                self.eob_run == old(self).eob_run,
                end == old(self).spec_end,
                end < 64,
                1 <= k <= 64,
                0 < bit <= 32768,
                bit == pow2(old(self).successive_low as nat),
                block[0] == old(block)[0],
                s0 == *old(self),
                r0 == *old(reader),
                src == s0.ahead(r0),
                acc == ac_table.spec_counts(),
                acv == ac_table.spec_values(),
                at >= 0,
                advanced(s0, r0, *self, *reader, at),
                refine_coeffs(src, at, k as int, end as int, block@, acc, acv, bit, s0.eob_run as int)
                    == refine_coeffs(
                    src,
                    0,
                    old(self).spec_start as int,
                    end as int,
                    old(block)@,
                    acc,
                    acv,
                    bit,
                    s0.eob_run as int,
                ),
            decreases 64 - k,
        {
            let step = self.decode_refine_symbol(
                reader,
                ac_table,
                block,
                k,
                end,
                bit,
                Ghost(s0),
                Ghost(r0),
                Ghost(at),
            );
            let (next, ended, g) = match step {
                Ok(v) => v,
                Err(e) => {
                    return Err(e);
                },
            };
            proof {
                at = g@;
            }
            if ended {
                return Ok(true);
            }
            k = next;
        }
        Ok(true)
    }

    /// Get a single bit from the bitstream, refilling when it is empty.
    pub fn get_bit(&mut self, reader: &mut ByteReader) -> (bit: bool)
        requires
            old(self).wf(),
            old(reader).wf(),
        ensures
            stream_step(*old(self), *final(self), *old(reader), *final(reader)),
            final(self).eob_run == old(self).eob_run,
            old(self).num_bits() >= 1 ==> bit == (old(self).spec_peek(1) == 1) && final(self).num_bits() == old(self).num_bits() - 1 && *final(reader) == *old(reader),
            bit == (old(self).bit_ahead(*old(reader), 0) == 1),
            advanced(*old(self), *old(reader), *final(self), *final(reader), 1),
    {
        let ghost s0 = *self;
        let ghost r0 = *reader;
        if self.bits_left < 1 {
            self.refill(reader);
        }
        let ghost s1 = *self;
        let ghost r1 = *reader;
        assert(advanced(s0, r0, s1, r1, 0));
        proof {
            lemma_peek_is_ahead(s1, r1, 1);
            lemma_advanced_value(s0, r0, s1, r1, 0, 0, 1);
            assert(bits_value(s0.ahead(r0), 0, 0) == 0);
            assert(bits_value(s0.ahead(r0), 0, 1) == s0.bit_ahead(r0, 0));
        }
        let b = self.get_bits(1);
        proof {
            lemma_drop_advances(s1, *self, r1, 1);
            lemma_advanced_trans(s0, r0, s1, r1, *self, r1, 0, 1);
        }
        b == 1
    }

    /// Reset the stream if we have a restart marker
    ///
    /// Restart markers indicate drop those bits in the stream and zero out
    /// everything
    pub fn reset(&mut self)
        requires
            old(self).wf(),
        ensures
            final(self).wf(),
            final(self).num_bits() == 0,
            final(self).held() == 0,
            final(self).marker is None,
            !final(self).ended(),
            final(self).eob_run == 0,
            final(self).successive_high == old(self).successive_high,
            final(self).successive_low == old(self).successive_low,
            final(self).spec_start == old(self).spec_start,
            final(self).spec_end == old(self).spec_end,
    {
        self.bits_left = 0;
        self.marker = None;
        self.buffer = 0;
        self.no_more = false;
        self.eob_run = 0;
        proof {
            lemma2_to64();
        }
    }
}

/// The `s` magnitude bits of a coefficient code the values whose magnitude
/// has exactly `s` bits (T.81 F.2.2.1): codes with the top bit set give the
/// positive values `2^(s-1)..2^s` in order, the others the negative ones, and
/// larger codes give larger values.
pub proof fn lemma_extend_magnitude_category(x: int, y: int, s: int)
    requires
        1 <= s <= 16,
        0 <= x < pow2(s as nat),
        0 <= y < pow2(s as nat),
    ensures
        ({
            let v = spec_extend(x, s);
            let mag = if v < 0 { -v } else { v };
            &&& pow2((s - 1) as nat) <= mag < pow2(s as nat)
            &&& (v > 0) == (x >= pow2((s - 1) as nat))
        }),
        x < y ==> spec_extend(x, s) < spec_extend(y, s),
{
    lemma_pow2_unfold(s as nat);
    lemma_pow2_pos((s - 1) as nat);
}

/// Do the equivalent of JPEG HUFF_EXTEND: turn the `s` magnitude bits `x` of a
/// coefficient into its signed value.
pub fn huff_extend(x: i32, s: i32) -> (r: i32)
    requires
        1 <= s <= 16,
        0 <= x < pow2(s as nat),
    ensures
        r == spec_extend(x as int, s as int),
        -pow2(s as nat) < r < pow2(s as nat),
{
    proof {
        lemma_pow2_strictly_increases(s as nat, 17);
        lemma_pow2_unfold(s as nat);
        lemma2_to64();
        vstd::bits::lemma_u32_shl_is_mul(1, (s - 1) as u32);
        vstd::bits::lemma_u32_shl_is_mul(1, s as u32);
        lemma_pow2_strictly_increases((s - 1) as nat, 17);
    }
    let half = (1u32 << ((s - 1) as u32)) as i32;
    if x < half {
        let full = (1u32 << (s as u32)) as i32;
        x - full + 1
    } else {
        x
    }
}

/// Division undoes a shift that left room for `j` below.
proof fn lemma_div_shifted(a: int, p: int, j: int)
    requires
        p > 0,
        0 <= j < p,
        a >= 0,
    ensures
        (a * p + j) / p == a,
{
    vstd::arithmetic::div_mod::lemma_fundamental_div_mod_converse(a * p + j, p, a, j);
}

} // verus!
