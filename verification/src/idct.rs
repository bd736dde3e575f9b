//! Routines for IDCT
//!
//! An integer inverse DCT of 8x8 blocks: dequantize, transform the columns,
//! keep two extra bits, transform the rows, level shift by 128 and clamp to
//! 0..=255. The constants are the cosines of the DCT scaled by 4096.
use vstd::prelude::*;

use crate::color_convert::abs_int;
use crate::misc::{floor_div, Aligned32};

verus! {

/// Rounding and level shift added before the final shift of the row pass:
/// half of `1 << 17`, plus 128 shifted up by 17 bits.
pub const SCALE_BITS: i32 = 512 + 65536 + 128 * 131072;

/// The even part of the one dimensional transform: the inputs at even
/// positions, with `bias` added to each result.
pub open spec fn idct_even(s0: int, s2: int, s4: int, s6: int, bias: int) -> (int, int, int, int) {
    let p1 = (s2 + s6) * 2217;
    let t2 = p1 - s6 * 7567;
    let t3 = p1 + s2 * 3135;
    let t0 = (s0 + s4) * 4096;
    let t1 = (s0 - s4) * 4096;
    (t0 + t3 + bias, t1 + t2 + bias, t1 - t2 + bias, t0 - t3 + bias)
}

/// The odd part of the one dimensional transform: the inputs at odd
/// positions.
pub open spec fn idct_odd(s1: int, s3: int, s5: int, s7: int) -> (int, int, int, int) {
    let p3 = s7 + s3;
    let p4 = s5 + s1;
    let p5 = (p3 + p4) * 4816;
    let q1 = p5 - (s7 + s1) * 3685;
    let q2 = p5 - (s5 + s3) * 10497;
    let r3 = -(p3 * 8034);
    let r4 = -(p4 * 1597);
    (s7 * 1223 + q1 + r3, s5 * 8410 + q2 + r4, s3 * 12586 + q2 + r3, s1 * 6149 + q1 + r4)
}

/// The one dimensional transform of eight values `s0..s7` (in natural order),
/// before the final shift; `bias` is added to the even part.
pub open spec fn idct_1d(
    s0: int,
    s1: int,
    s2: int,
    s3: int,
    s4: int,
    s5: int,
    s6: int,
    s7: int,
    bias: int,
) -> Seq<int> {
    let (x0, x1, x2, x3) = idct_even(s0, s2, s4, s6, bias);
    let (o0, o1, o2, o3) = idct_odd(s1, s3, s5, s7);
    seq![x0 + o3, x1 + o2, x2 + o1, x3 + o0, x3 - o0, x2 - o1, x1 - o2, x0 - o3]
}

/// Clamp values between 0 and 255
pub open spec fn spec_clamp(a: int) -> i16 {
    if a < 0 {
        0
    } else if a > 255 {
        255
    } else {
        a as i16
    }
}

/// Dequantized coefficient `i` of a block.
pub open spec fn dequantized(block: Seq<i16>, qt: Seq<i32>, i: int) -> int {
    block[i] as int * qt[i] as int
}

/// Column `c` of the block, dequantized and transformed, before the shift.
#[verifier::opaque]
pub open spec fn idct_column(block: Seq<i16>, qt: Seq<i32>, c: int) -> Seq<int> {
    idct_1d(
        dequantized(block, qt, c),
        dequantized(block, qt, c + 8),
        dequantized(block, qt, c + 16),
        dequantized(block, qt, c + 24),
        dequantized(block, qt, c + 32),
        dequantized(block, qt, c + 40),
        dequantized(block, qt, c + 48),
        dequantized(block, qt, c + 56),
        512,
    )
}

/// Entry `idx` of the intermediate matrix: column `idx % 8` transformed,
/// shifted down by ten bits.
pub open spec fn spec_idct_tmp(block: Seq<i16>, qt: Seq<i32>, idx: int) -> int {
    idct_column(block, qt, idx % 8)[idx / 8] / 1024
}

/// Row `r` of the intermediate matrix transformed, with rounding and level
/// shift, before the final shift.
#[verifier::opaque]
pub open spec fn idct_row(block: Seq<i16>, qt: Seq<i32>, r: int) -> Seq<int> {
    idct_1d(
        spec_idct_tmp(block, qt, 8 * r),
        spec_idct_tmp(block, qt, 8 * r + 1),
        spec_idct_tmp(block, qt, 8 * r + 2),
        spec_idct_tmp(block, qt, 8 * r + 3),
        spec_idct_tmp(block, qt, 8 * r + 4),
        spec_idct_tmp(block, qt, 8 * r + 5),
        spec_idct_tmp(block, qt, 8 * r + 6),
        spec_idct_tmp(block, qt, 8 * r + 7),
        SCALE_BITS as int,
    )
}

/// The pixel at natural position `i` of the block after dequantization,
/// inverse DCT, level shift and clamping.
pub open spec fn spec_idct(block: Seq<i16>, qt: Seq<i32>, i: int) -> i16 {
    spec_clamp(idct_row(block, qt, i / 8)[i % 8] / 131072)
}

/// `x` lies strictly between `-b` and `b`.
pub open spec fn within(x: int, b: int) -> bool {
    -b < x < b
}

/// The even part, computed exactly.
fn idct_even_exec(a0: i128, a2: i128, a4: i128, a6: i128, bias: i128, Ghost(bound): Ghost<int>) -> (x: (
    i128,
    i128,
    i128,
    i128,
))
    requires
        1 <= bound <= 0x1_0000_0000_0000_0000_0000,
        within(a0 as int, bound),
        within(a2 as int, bound),
        within(a4 as int, bound),
        within(a6 as int, bound),
        0 <= bias < 0x1_0000_0000,
    ensures
        (x.0 as int, x.1 as int, x.2 as int, x.3 as int) == idct_even(
            a0 as int,
            a2 as int,
            a4 as int,
            a6 as int,
            bias as int,
        ),
        within(x.0 as int, 20000 * bound + 0x1_0000_0000),
        within(x.1 as int, 20000 * bound + 0x1_0000_0000),
        within(x.2 as int, 20000 * bound + 0x1_0000_0000),
        within(x.3 as int, 20000 * bound + 0x1_0000_0000),
{
    let p1 = (a2 + a6) * 2217;
    let t2 = p1 - a6 * 7567;
    let t3 = p1 + a2 * 3135;
    let t0 = fsh(a0 + a4);
    let t1 = fsh(a0 - a4);
    (t0 + t3 + bias, t1 + t2 + bias, t1 - t2 + bias, t0 - t3 + bias)
}

/// Multiply a number by 4096.
fn fsh(x: i128) -> (r: i128)
    requires
        within(x as int, 0x2_0000_0000_0000_0000_0000),
    ensures
        r == x * 4096,
{
    x * 4096
}

/// The odd part, computed exactly.
fn idct_odd_exec(a1: i128, a3: i128, a5: i128, a7: i128, Ghost(bound): Ghost<int>) -> (o: (
    i128,
    i128,
    i128,
    i128,
))
    requires
        1 <= bound <= 0x1_0000_0000_0000_0000_0000,
        within(a1 as int, bound),
        within(a3 as int, bound),
        within(a5 as int, bound),
        within(a7 as int, bound),
    ensures
        (o.0 as int, o.1 as int, o.2 as int, o.3 as int) == idct_odd(
            a1 as int,
            a3 as int,
            a5 as int,
            a7 as int,
        ),
        within(o.0 as int, 70000 * bound),
        within(o.1 as int, 70000 * bound),
        within(o.2 as int, 70000 * bound),
        within(o.3 as int, 70000 * bound),
{
    let p3 = a7 + a3;
    let p4 = a5 + a1;
    let p5 = (p3 + p4) * 4816;
    let q1 = p5 - (a7 + a1) * 3685;
    let q2 = p5 - (a5 + a3) * 10497;
    let r3 = 0 - p3 * 8034;
    let r4 = 0 - p4 * 1597;
    (a7 * 1223 + q1 + r3, a5 * 8410 + q2 + r4, a3 * 12586 + q2 + r3, a1 * 6149 + q1 + r4)
}

/// The one dimensional transform, computed exactly; each output is below
/// `2^17` times the bound on the inputs, plus the bias.
#[verifier::spinoff_prover]
#[verifier::rlimit(60)]
fn idct_1d_exec(s: &[i128; 8], bias: i128, Ghost(bound): Ghost<int>) -> (o: [i128; 8])
    requires
        1 <= bound <= 0x1_0000_0000_0000_0000_0000,
        forall|i: int| 0 <= i < 8 ==> within(#[trigger] s[i] as int, bound),
        0 <= bias < 0x1_0000_0000,
    ensures
        forall|k: int|
            0 <= k < 8 ==> #[trigger] o[k] as int == idct_1d(
                s[0] as int,
                s[1] as int,
                s[2] as int,
                s[3] as int,
                s[4] as int,
                s[5] as int,
                s[6] as int,
                s[7] as int,
                bias as int,
            )[k],
        forall|k: int| 0 <= k < 8 ==> within(#[trigger] o[k] as int, 131072 * bound + 0x1_0000_0000),
{
    assert(within(s[0] as int, bound) && within(s[1] as int, bound) && within(s[2] as int, bound));
    assert(within(s[3] as int, bound) && within(s[4] as int, bound) && within(s[5] as int, bound));
    assert(within(s[6] as int, bound) && within(s[7] as int, bound));
    let (x0, x1, x2, x3) = idct_even_exec(s[0], s[2], s[4], s[6], bias, Ghost(bound));
    let (o0, o1, o2, o3) = idct_odd_exec(s[1], s[3], s[5], s[7], Ghost(bound));
    let o = [x0 + o3, x1 + o2, x2 + o1, x3 + o0, x3 - o0, x2 - o1, x1 - o2, x0 - o3];
    let ghost sq = idct_1d(
        s[0] as int,
        s[1] as int,
        s[2] as int,
        s[3] as int,
        s[4] as int,
        s[5] as int,
        s[6] as int,
        s[7] as int,
        bias as int,
    );
    assert(sq =~= seq![
        o[0] as int,
        o[1] as int,
        o[2] as int,
        o[3] as int,
        o[4] as int,
        o[5] as int,
        o[6] as int,
        o[7] as int,
    ]);
    assert forall|k: int| 0 <= k < 8 implies #[trigger] o[k] as int == sq[k] && within(
        o[k] as int,
        131072 * bound + 0x1_0000_0000,
    ) by {
        if k == 0 {
        } else if k == 1 {
        } else if k == 2 {
        } else if k == 3 {
        } else if k == 4 {
        } else if k == 5 {
        } else if k == 6 {
        } else {
        }
    }
    o
}

/// Clamp values between 0 and 255
fn clamp(a: i128) -> (r: i16)
    ensures
        r == spec_clamp(a as int),
{
    if a < 0 {
        0
    } else if a > 255 {
        255
    } else {
        a as i16
    }
}

/// Multiply a coefficient by its quantization value.
fn dequantize(a: i16, b: i32) -> (r: i128)
    ensures
        r == a as int * b as int,
        within(r as int, 0x8000_0000_0000),
{
    assert(-0x4000_0000_0000 <= a as int * b as int <= 0x4000_0000_0000) by (nonlinear_arith)
        requires
            -0x8000 <= a <= 0x7fff,
            -0x8000_0000 <= b <= 0x7fff_ffff,
    ;
    (a as i128) * (b as i128)
}

/// The column pass over the block at `vector[base..base + 64]`.
fn idct_columns(vector: &Vec<i16>, base: usize, qt_table: &Aligned32<[i32; 64]>) -> (tmp: [i128; 64])
    requires
        base + 64 <= vector@.len(),
    ensures
        forall|idx: int|
            0 <= idx < 64 ==> #[trigger] tmp[idx] as int == spec_idct_tmp(
                vector@.subrange(base as int, base + 64),
                qt_table.0@,
                idx,
            ),
        forall|idx: int| 0 <= idx < 64 ==> within(#[trigger] tmp[idx] as int, 0x80_0000_0000_0000),
{
    let ghost block = vector@.subrange(base as int, base + 64);
    let ghost qt = qt_table.0@;
    let mut tmp = [0i128; 64];
    let mut ptr: usize = 0;
    while ptr < 8
        invariant
            base + 64 <= vector@.len(),
            base + 64 <= vector.len(),
            block == vector@.subrange(base as int, base + 64),
            qt == qt_table.0@,
            ptr <= 8,
            forall|idx: int|
                0 <= idx < 64 && idx % 8 < ptr ==> #[trigger] tmp[idx] as int == spec_idct_tmp(
                    block,
                    qt,
                    idx,
                ),
            forall|idx: int| 0 <= idx < 64 ==> within(#[trigger] tmp[idx] as int, 0x80_0000_0000_0000),
        decreases 8 - ptr,
    {
        let s = [
            dequantize(vector[base + ptr], qt_table.0[ptr]),
            dequantize(vector[base + ptr + 8], qt_table.0[ptr + 8]),
            dequantize(vector[base + ptr + 16], qt_table.0[ptr + 16]),
            dequantize(vector[base + ptr + 24], qt_table.0[ptr + 24]),
            dequantize(vector[base + ptr + 32], qt_table.0[ptr + 32]),
            dequantize(vector[base + ptr + 40], qt_table.0[ptr + 40]),
            dequantize(vector[base + ptr + 48], qt_table.0[ptr + 48]),
            dequantize(vector[base + ptr + 56], qt_table.0[ptr + 56]),
        ];
        assert(s[0] as int == dequantized(block, qt, ptr as int));
        assert(s[1] as int == dequantized(block, qt, ptr + 8));
        assert(s[2] as int == dequantized(block, qt, ptr + 16));
        assert(s[3] as int == dequantized(block, qt, ptr + 24));
        assert(s[4] as int == dequantized(block, qt, ptr + 32));
        assert(s[5] as int == dequantized(block, qt, ptr + 40));
        assert(s[6] as int == dequantized(block, qt, ptr + 48));
        assert(s[7] as int == dequantized(block, qt, ptr + 56));
        let o = idct_1d_exec(&s, 512, Ghost(0x8000_0000_0000));
        proof {
            reveal(idct_column);
        }
        assert(forall|k: int| 0 <= k < 8 ==> #[trigger] o[k] as int == idct_column(block, qt, ptr as int)[k]);
        let mut r: usize = 0;
        while r < 8
            invariant
                ptr < 8,
                r <= 8,
                forall|k: int|
                    0 <= k < 8 ==> #[trigger] o[k] as int == idct_column(block, qt, ptr as int)[k],
                forall|k: int|
                    0 <= k < 8 ==> within(#[trigger] o[k] as int, 0x1_0000_0001_0000_0000),
                forall|idx: int|
                    0 <= idx < 64 && (idx % 8 < ptr || (idx % 8 == ptr && idx / 8 < r))
                        ==> #[trigger] tmp[idx] as int == spec_idct_tmp(block, qt, idx),
                forall|idx: int| 0 <= idx < 64 ==> within(#[trigger] tmp[idx] as int, 0x80_0000_0000_0000),
            decreases 8 - r,
        {
            assert(within(o[r as int] as int, 0x1_0000_0001_0000_0000));
            let v = floor_div(o[r], 1024);
            assert((ptr + 8 * r) % 8 == ptr && (ptr + 8 * r) / 8 == r as int);
            tmp[ptr + 8 * r] = v;
            r += 1;
        }
        ptr += 1;
    }
    tmp
}

/// The row pass: writes the pixels of the block at `vector[base..base + 64]`
/// from the output `tmp` of the column pass over `block`.
fn idct_rows(
    vector: &mut Vec<i16>,
    base: usize,
    tmp: &[i128; 64],
    Ghost(block): Ghost<Seq<i16>>,
    Ghost(qt): Ghost<Seq<i32>>,
)
    requires
        base + 64 <= old(vector)@.len(),
        forall|idx: int| 0 <= idx < 64 ==> #[trigger] tmp[idx] as int == spec_idct_tmp(block, qt, idx),
        forall|idx: int| 0 <= idx < 64 ==> within(#[trigger] tmp[idx] as int, 0x80_0000_0000_0000),
    ensures
        final(vector)@.len() == old(vector)@.len(),
        forall|i: int| 0 <= i < 64 ==> #[trigger] final(vector)@[base + i] == spec_idct(block, qt, i),
        forall|j: int|
            0 <= j < old(vector)@.len() && !(base <= j < base + 64) ==> #[trigger] final(vector)@[j]
                == old(vector)@[j],
{
    let mut row: usize = 0;
    while row < 8
        invariant
            vector@.len() == old(vector)@.len(),
            base + 64 <= vector@.len(),
            base + 64 <= vector.len(),
            row <= 8,
            forall|idx: int| 0 <= idx < 64 ==> #[trigger] tmp[idx] as int == spec_idct_tmp(block, qt, idx),
            forall|idx: int| 0 <= idx < 64 ==> within(#[trigger] tmp[idx] as int, 0x80_0000_0000_0000),
            forall|i: int| 0 <= i < 8 * row ==> #[trigger] vector@[base + i] == spec_idct(block, qt, i),
            forall|j: int|
                0 <= j < old(vector)@.len() && !(base <= j < base + 64) ==> #[trigger] vector@[j]
                    == old(vector)@[j],
        decreases 8 - row,
    {
        let i = 8 * row;
        let s = [tmp[i], tmp[i + 1], tmp[i + 2], tmp[i + 3], tmp[i + 4], tmp[i + 5], tmp[i + 6], tmp[i + 7]];
        assert(forall|k: int| 0 <= k < 8 ==> #[trigger] s[k] == tmp[i + k]);
        let o = idct_1d_exec(&s, SCALE_BITS as i128, Ghost(0x80_0000_0000_0000));
        proof {
            reveal(idct_row);
        }
        assert(forall|k: int| 0 <= k < 8 ==> #[trigger] o[k] as int == idct_row(block, qt, row as int)[k]);
        let mut c: usize = 0;
        while c < 8
            invariant
                vector@.len() == old(vector)@.len(),
                base + 64 <= vector@.len(),
                base + 64 <= vector.len(),
                row < 8,
                i == 8 * row,
                c <= 8,
                forall|k: int|
                    0 <= k < 8 ==> #[trigger] o[k] as int == idct_row(block, qt, row as int)[k],
                forall|k: int|
                    0 <= k < 8 ==> within(#[trigger] o[k] as int, 0x1_0000_0000_0000_0001_0000_0000),
                forall|ii: int| 0 <= ii < i + c ==> #[trigger] vector@[base + ii] == spec_idct(block, qt, ii),
                forall|j: int|
                    0 <= j < old(vector)@.len() && !(base <= j < base + 64) ==> #[trigger] vector@[j]
                        == old(vector)@[j],
            decreases 8 - c,
        {
            assert(within(o[c as int] as int, 0x1_0000_0000_0000_0001_0000_0000));
            let v = floor_div(o[c], 131072);
            let p = clamp(v);
            assert((i + c) / 8 == row as int && (i + c) % 8 == c as int);
            vector.set(base + i + c, p);
            c += 1;
        }
        row += 1;
    }
}

/// Perform Integer IDCT and level shift (by adding 128 to each element) on
/// every whole block of 64 coefficients in `vector`, in place.
///
/// Each block is dequantized with `qt_table`; coefficients past the last
/// whole block are left as they are.
pub fn dequantize_and_idct_int(vector: &mut Vec<i16>, qt_table: &Aligned32<[i32; 64]>)
    ensures
        final(vector)@.len() == old(vector)@.len(),
        forall|b: int, i: int|
            0 <= b < old(vector)@.len() / 64 && 0 <= i < 64 ==> #[trigger] final(vector)@[64 * b
                + i] == spec_idct(old(vector)@.subrange(64 * b, 64 * b + 64), qt_table.0@, i),
        forall|j: int|
            64 * (old(vector)@.len() / 64) <= j < old(vector)@.len() ==> #[trigger] final(vector)@[j]
                == old(vector)@[j],
{
    let blocks = vector.len() / 64;
    let mut b: usize = 0;
    while b < blocks
        invariant
            vector@.len() == old(vector)@.len(),
            blocks == old(vector)@.len() / 64,
            b <= blocks,
            forall|bb: int, i: int|
                0 <= bb < b && 0 <= i < 64 ==> #[trigger] vector@[64 * bb + i] == spec_idct(
                    old(vector)@.subrange(64 * bb, 64 * bb + 64),
                    qt_table.0@,
                    i,
                ),
            forall|j: int| 64 * b <= j < vector@.len() ==> #[trigger] vector@[j] == old(vector)@[j],
        decreases blocks - b,
    {
        assert(64 * b + 64 <= vector@.len()) by (nonlinear_arith)
            requires
                b < blocks,
                blocks == vector@.len() / 64,
        ;
        assert(64 * b + 64 <= vector.len());
        let base = 64 * b;
        let ghost block = old(vector)@.subrange(base as int, base + 64);
        assert(vector@.subrange(base as int, base + 64) =~= block);
        let tmp = idct_columns(vector, base, qt_table);
        let ghost before = vector@;
        idct_rows(vector, base, &tmp, Ghost(block), Ghost(qt_table.0@));
        assert forall|bb: int, i: int|
            0 <= bb < b + 1 && 0 <= i < 64 implies #[trigger] vector@[64 * bb + i] == spec_idct(
            old(vector)@.subrange(64 * bb, 64 * bb + 64),
            qt_table.0@,
            i,
        ) by {
            if bb < b {
                assert(64 * bb + i < base);
                assert(vector@[64 * bb + i] == before[64 * bb + i]);
            }
        }
        b += 1;
    }
}

/// Every pixel that `dequantize_and_idct_int` writes is a sample in `0..=255`.
pub proof fn lemma_idct_output_in_range(block: Seq<i16>, qt: Seq<i32>, i: int)
    ensures
        0 <= spec_idct(block, qt, i) <= 255,
{
}

/// The inverse DCT routines available.
#[derive(Debug, Clone, Copy, PartialEq, Eq, Structural)]
pub enum IDCTPtr {
    /// The portable integer routine `dequantize_and_idct_int`
    Integer,
}

impl IDCTPtr {
    /// Run the routine on every whole block of `vector`. Every routine gives
    /// exactly what `dequantize_and_idct_int` gives.
    pub fn run(&self, vector: &mut Vec<i16>, qt_table: &Aligned32<[i32; 64]>)
        ensures
            final(vector)@.len() == old(vector)@.len(),
            forall|b: int, i: int|
                0 <= b < old(vector)@.len() / 64 && 0 <= i < 64 ==> #[trigger] final(vector)@[64 * b
                    + i] == spec_idct(old(vector)@.subrange(64 * b, 64 * b + 64), qt_table.0@, i),
            forall|j: int|
                64 * (old(vector)@.len() / 64) <= j < old(vector)@.len() ==> #[trigger] final(vector)@[j]
                    == old(vector)@[j],
    {
        match self {
            IDCTPtr::Integer => dequantize_and_idct_int(vector, qt_table),
        }
    }
}

/// Choose an appropriate IDCT function
pub fn choose_idct_func() -> (f: IDCTPtr)
    ensures
        f == IDCTPtr::Integer,
{
    IDCTPtr::Integer
}


/// `4096 * sqrt(2) * cos(k * pi / 16)` rounded, for `k` in `0..=8`.
pub open spec fn scaled_cos_table(k: int) -> int {
    if k == 0 {
        5793
    } else if k == 1 {
        5681
    } else if k == 2 {
        5352
    } else if k == 3 {
        4816
    } else if k == 4 {
        4096
    } else if k == 5 {
        3218
    } else if k == 6 {
        2217
    } else if k == 7 {
        1130
    } else {
        0
    }
}

/// `4096 * sqrt(2) * cos(k * pi / 16)` rounded, for any `k >= 0`.
pub open spec fn scaled_cos(k: int) -> int {
    let a = k % 32;
    let b = if a > 16 {
        32 - a
    } else {
        a
    };
    if b <= 8 {
        scaled_cos_table(b)
    } else {
        -scaled_cos_table(16 - b)
    }
}

/// The weight of input `u` in output `x` of the eight point inverse DCT,
/// scaled by `4096 * sqrt(8)`: `4096` for the DC term, else
/// `4096 * sqrt(2) * cos((2x + 1) u pi / 16)`.
pub open spec fn dct_basis(x: int, u: int) -> int {
    if u == 0 {
        4096
    } else {
        scaled_cos((2 * x + 1) * u)
    }
}

/// The eight point inverse DCT of `s0..s7`, scaled, in exact arithmetic
/// with the rounded cosines.
pub open spec fn dct_sum(s0: int, s1: int, s2: int, s3: int, s4: int, s5: int, s6: int, s7: int, x: int) -> int {
    s0 * dct_basis(x, 0) + s1 * dct_basis(x, 1) + s2 * dct_basis(x, 2) + s3 * dct_basis(x, 3) + s4
        * dct_basis(x, 4) + s5 * dct_basis(x, 5) + s6 * dct_basis(x, 6) + s7 * dct_basis(x, 7)
}

/// Output 0 of the one dimensional transform against the cosine basis.
proof fn lemma_idct_1d_output_0(s0: int, s1: int, s2: int, s3: int, s4: int, s5: int, s6: int, s7: int, bias: int)
    ensures
        idct_1d(s0, s1, s2, s3, s4, s5, s6, s7, bias)[0] == bias + s0 * 4096 + s1 * 5683 + s2 * 5352 + s3 * 4816 + s4 * 4096 + s5 * 3219 + s6 * 2217 + s7 * 1131,
        dct_sum(s0, s1, s2, s3, s4, s5, s6, s7, 0) == s0 * 4096 + s1 * 5681 + s2 * 5352 + s3 * 4816 + s4 * 4096 + s5 * 3218 + s6 * 2217 + s7 * 1130,
        ({
            let err = idct_1d(s0, s1, s2, s3, s4, s5, s6, s7, bias)[0] - bias - dct_sum(s0, s1, s2, s3, s4, s5, s6, s7, 0);
            let mag = abs_int(s0) + abs_int(s1) + abs_int(s2) + abs_int(s3) + abs_int(s4) + abs_int(s5)
                + abs_int(s6) + abs_int(s7);
            -2 * mag <= err <= 2 * mag
        }),
{
    assert(dct_basis(0, 0) == 4096 && dct_basis(0, 1) == 5681 && dct_basis(0, 2) == 5352 && dct_basis(0, 3) == 4816 && dct_basis(0, 4) == 4096 && dct_basis(0, 5) == 3218 && dct_basis(0, 6) == 2217 && dct_basis(0, 7) == 1130);
}

/// Output 1 of the one dimensional transform against the cosine basis.
proof fn lemma_idct_1d_output_1(s0: int, s1: int, s2: int, s3: int, s4: int, s5: int, s6: int, s7: int, bias: int)
    ensures
        idct_1d(s0, s1, s2, s3, s4, s5, s6, s7, bias)[1] == bias + s0 * 4096 + s1 * 4816 + s2 * 2217 + s3 * (-1129) + s4 * (-4096) + s5 * (-5681) + s6 * (-5350) + s7 * (-3218),
        dct_sum(s0, s1, s2, s3, s4, s5, s6, s7, 1) == s0 * 4096 + s1 * 4816 + s2 * 2217 + s3 * (-1130) + s4 * (-4096) + s5 * (-5681) + s6 * (-5352) + s7 * (-3218),
        ({
            let err = idct_1d(s0, s1, s2, s3, s4, s5, s6, s7, bias)[1] - bias - dct_sum(s0, s1, s2, s3, s4, s5, s6, s7, 1);
            let mag = abs_int(s0) + abs_int(s1) + abs_int(s2) + abs_int(s3) + abs_int(s4) + abs_int(s5)
                + abs_int(s6) + abs_int(s7);
            -2 * mag <= err <= 2 * mag
        }),
{
    assert(dct_basis(1, 0) == 4096 && dct_basis(1, 1) == 4816 && dct_basis(1, 2) == 2217 && dct_basis(1, 3) == -1130 && dct_basis(1, 4) == -4096 && dct_basis(1, 5) == -5681 && dct_basis(1, 6) == -5352 && dct_basis(1, 7) == -3218);
}

/// Output 2 of the one dimensional transform against the cosine basis.
proof fn lemma_idct_1d_output_2(s0: int, s1: int, s2: int, s3: int, s4: int, s5: int, s6: int, s7: int, bias: int)
    ensures
        idct_1d(s0, s1, s2, s3, s4, s5, s6, s7, bias)[2] == bias + s0 * 4096 + s1 * 3219 + s2 * (-2217) + s3 * (-5681) + s4 * (-4096) + s5 * 1132 + s6 * 5350 + s7 * 4816,
        dct_sum(s0, s1, s2, s3, s4, s5, s6, s7, 2) == s0 * 4096 + s1 * 3218 + s2 * (-2217) + s3 * (-5681) + s4 * (-4096) + s5 * 1130 + s6 * 5352 + s7 * 4816,
        ({
            let err = idct_1d(s0, s1, s2, s3, s4, s5, s6, s7, bias)[2] - bias - dct_sum(s0, s1, s2, s3, s4, s5, s6, s7, 2);
            let mag = abs_int(s0) + abs_int(s1) + abs_int(s2) + abs_int(s3) + abs_int(s4) + abs_int(s5)
                + abs_int(s6) + abs_int(s7);
            -2 * mag <= err <= 2 * mag
        }),
{
    assert(dct_basis(2, 0) == 4096 && dct_basis(2, 1) == 3218 && dct_basis(2, 2) == -2217 && dct_basis(2, 3) == -5681 && dct_basis(2, 4) == -4096 && dct_basis(2, 5) == 1130 && dct_basis(2, 6) == 5352 && dct_basis(2, 7) == 4816);
}

/// Output 3 of the one dimensional transform against the cosine basis.
proof fn lemma_idct_1d_output_3(s0: int, s1: int, s2: int, s3: int, s4: int, s5: int, s6: int, s7: int, bias: int)
    ensures
        idct_1d(s0, s1, s2, s3, s4, s5, s6, s7, bias)[3] == bias + s0 * 4096 + s1 * 1131 + s2 * (-5352) + s3 * (-3218) + s4 * 4096 + s5 * 4816 + s6 * (-2217) + s7 * (-5680),
        dct_sum(s0, s1, s2, s3, s4, s5, s6, s7, 3) == s0 * 4096 + s1 * 1130 + s2 * (-5352) + s3 * (-3218) + s4 * 4096 + s5 * 4816 + s6 * (-2217) + s7 * (-5681),
        ({
            let err = idct_1d(s0, s1, s2, s3, s4, s5, s6, s7, bias)[3] - bias - dct_sum(s0, s1, s2, s3, s4, s5, s6, s7, 3);
            let mag = abs_int(s0) + abs_int(s1) + abs_int(s2) + abs_int(s3) + abs_int(s4) + abs_int(s5)
                + abs_int(s6) + abs_int(s7);
            -2 * mag <= err <= 2 * mag
        }),
{
    assert(dct_basis(3, 0) == 4096 && dct_basis(3, 1) == 1130 && dct_basis(3, 2) == -5352 && dct_basis(3, 3) == -3218 && dct_basis(3, 4) == 4096 && dct_basis(3, 5) == 4816 && dct_basis(3, 6) == -2217 && dct_basis(3, 7) == -5681);
}

/// Output 4 of the one dimensional transform against the cosine basis.
proof fn lemma_idct_1d_output_4(s0: int, s1: int, s2: int, s3: int, s4: int, s5: int, s6: int, s7: int, bias: int)
    ensures
        idct_1d(s0, s1, s2, s3, s4, s5, s6, s7, bias)[4] == bias + s0 * 4096 + s1 * (-1131) + s2 * (-5352) + s3 * 3218 + s4 * 4096 + s5 * (-4816) + s6 * (-2217) + s7 * 5680,
        dct_sum(s0, s1, s2, s3, s4, s5, s6, s7, 4) == s0 * 4096 + s1 * (-1130) + s2 * (-5352) + s3 * 3218 + s4 * 4096 + s5 * (-4816) + s6 * (-2217) + s7 * 5681,
        ({
            let err = idct_1d(s0, s1, s2, s3, s4, s5, s6, s7, bias)[4] - bias - dct_sum(s0, s1, s2, s3, s4, s5, s6, s7, 4);
            let mag = abs_int(s0) + abs_int(s1) + abs_int(s2) + abs_int(s3) + abs_int(s4) + abs_int(s5)
                + abs_int(s6) + abs_int(s7);
            -2 * mag <= err <= 2 * mag
        }),
{
    assert(dct_basis(4, 0) == 4096 && dct_basis(4, 1) == -1130 && dct_basis(4, 2) == -5352 && dct_basis(4, 3) == 3218 && dct_basis(4, 4) == 4096 && dct_basis(4, 5) == -4816 && dct_basis(4, 6) == -2217 && dct_basis(4, 7) == 5681);
}

/// Output 5 of the one dimensional transform against the cosine basis.
proof fn lemma_idct_1d_output_5(s0: int, s1: int, s2: int, s3: int, s4: int, s5: int, s6: int, s7: int, bias: int)
    ensures
        idct_1d(s0, s1, s2, s3, s4, s5, s6, s7, bias)[5] == bias + s0 * 4096 + s1 * (-3219) + s2 * (-2217) + s3 * 5681 + s4 * (-4096) + s5 * (-1132) + s6 * 5350 + s7 * (-4816),
        dct_sum(s0, s1, s2, s3, s4, s5, s6, s7, 5) == s0 * 4096 + s1 * (-3218) + s2 * (-2217) + s3 * 5681 + s4 * (-4096) + s5 * (-1130) + s6 * 5352 + s7 * (-4816),
        ({
            let err = idct_1d(s0, s1, s2, s3, s4, s5, s6, s7, bias)[5] - bias - dct_sum(s0, s1, s2, s3, s4, s5, s6, s7, 5);
            let mag = abs_int(s0) + abs_int(s1) + abs_int(s2) + abs_int(s3) + abs_int(s4) + abs_int(s5)
                + abs_int(s6) + abs_int(s7);
            -2 * mag <= err <= 2 * mag
        }),
{
    assert(dct_basis(5, 0) == 4096 && dct_basis(5, 1) == -3218 && dct_basis(5, 2) == -2217 && dct_basis(5, 3) == 5681 && dct_basis(5, 4) == -4096 && dct_basis(5, 5) == -1130 && dct_basis(5, 6) == 5352 && dct_basis(5, 7) == -4816);
}

/// Output 6 of the one dimensional transform against the cosine basis.
proof fn lemma_idct_1d_output_6(s0: int, s1: int, s2: int, s3: int, s4: int, s5: int, s6: int, s7: int, bias: int)
    ensures
        idct_1d(s0, s1, s2, s3, s4, s5, s6, s7, bias)[6] == bias + s0 * 4096 + s1 * (-4816) + s2 * 2217 + s3 * 1129 + s4 * (-4096) + s5 * 5681 + s6 * (-5350) + s7 * 3218,
        dct_sum(s0, s1, s2, s3, s4, s5, s6, s7, 6) == s0 * 4096 + s1 * (-4816) + s2 * 2217 + s3 * 1130 + s4 * (-4096) + s5 * 5681 + s6 * (-5352) + s7 * 3218,
        ({
            let err = idct_1d(s0, s1, s2, s3, s4, s5, s6, s7, bias)[6] - bias - dct_sum(s0, s1, s2, s3, s4, s5, s6, s7, 6);
            let mag = abs_int(s0) + abs_int(s1) + abs_int(s2) + abs_int(s3) + abs_int(s4) + abs_int(s5)
                + abs_int(s6) + abs_int(s7);
            -2 * mag <= err <= 2 * mag
        }),
{
    assert(dct_basis(6, 0) == 4096 && dct_basis(6, 1) == -4816 && dct_basis(6, 2) == 2217 && dct_basis(6, 3) == 1130 && dct_basis(6, 4) == -4096 && dct_basis(6, 5) == 5681 && dct_basis(6, 6) == -5352 && dct_basis(6, 7) == 3218);
}

/// Output 7 of the one dimensional transform against the cosine basis.
proof fn lemma_idct_1d_output_7(s0: int, s1: int, s2: int, s3: int, s4: int, s5: int, s6: int, s7: int, bias: int)
    ensures
        idct_1d(s0, s1, s2, s3, s4, s5, s6, s7, bias)[7] == bias + s0 * 4096 + s1 * (-5683) + s2 * 5352 + s3 * (-4816) + s4 * 4096 + s5 * (-3219) + s6 * 2217 + s7 * (-1131),
        dct_sum(s0, s1, s2, s3, s4, s5, s6, s7, 7) == s0 * 4096 + s1 * (-5681) + s2 * 5352 + s3 * (-4816) + s4 * 4096 + s5 * (-3218) + s6 * 2217 + s7 * (-1130),
        ({
            let err = idct_1d(s0, s1, s2, s3, s4, s5, s6, s7, bias)[7] - bias - dct_sum(s0, s1, s2, s3, s4, s5, s6, s7, 7);
            let mag = abs_int(s0) + abs_int(s1) + abs_int(s2) + abs_int(s3) + abs_int(s4) + abs_int(s5)
                + abs_int(s6) + abs_int(s7);
            -2 * mag <= err <= 2 * mag
        }),
{
    assert(dct_basis(7, 0) == 4096 && dct_basis(7, 1) == -5681 && dct_basis(7, 2) == 5352 && dct_basis(7, 3) == -4816 && dct_basis(7, 4) == 4096 && dct_basis(7, 5) == -3218 && dct_basis(7, 6) == 2217 && dct_basis(7, 7) == -1130);
}

/// The one dimensional transform of a lone DC input is flat.
proof fn lemma_idct_1d_dc(a: int, bias: int)
    ensures
        forall|k: int| 0 <= k < 8 ==> #[trigger] idct_1d(a, 0, 0, 0, 0, 0, 0, 0, bias)[k] == bias + 4096 * a,
{
    lemma_idct_1d_output_0(a, 0, 0, 0, 0, 0, 0, 0, bias);
    lemma_idct_1d_output_1(a, 0, 0, 0, 0, 0, 0, 0, bias);
    lemma_idct_1d_output_2(a, 0, 0, 0, 0, 0, 0, 0, bias);
    lemma_idct_1d_output_3(a, 0, 0, 0, 0, 0, 0, 0, bias);
    lemma_idct_1d_output_4(a, 0, 0, 0, 0, 0, 0, 0, bias);
    lemma_idct_1d_output_5(a, 0, 0, 0, 0, 0, 0, 0, bias);
    lemma_idct_1d_output_6(a, 0, 0, 0, 0, 0, 0, 0, bias);
    lemma_idct_1d_output_7(a, 0, 0, 0, 0, 0, 0, 0, bias);
}

/// `a` clamped to `lo..=hi`.
pub open spec fn clamp_to(a: int, lo: int, hi: int) -> int {
    if a < lo {
        lo
    } else if a > hi {
        hi
    } else {
        a
    }
}

/// A block whose only coefficient is the DC one decodes to a flat block: all
/// 64 pixels are equal, and eight times a pixel is within five of
/// `8 * 128` plus the dequantized DC coefficient (clamped to the range of
/// eight pixels), as the DC basis function of the inverse DCT is `1/8`.
pub proof fn lemma_idct_dc_block_is_flat(block: Seq<i16>, qt: Seq<i32>, i: int)
    requires
        block.len() == 64,
        qt.len() == 64,
        forall|k: int| 1 <= k < 64 ==> #[trigger] block[k] == 0,
        0 <= i < 64,
    ensures
        spec_idct(block, qt, i) == spec_idct(block, qt, 0),
        abs_int(8 * spec_idct(block, qt, i) - clamp_to(1024 + dequantized(block, qt, 0), 0, 2040)) <= 5,
{
    reveal(idct_column);
    reveal(idct_row);
    let d = dequantized(block, qt, 0);
    lemma_idct_1d_dc(d, 512);
    lemma_idct_1d_dc(0, 512);
    assert forall|idx: int| 0 <= idx < 64 implies #[trigger] spec_idct_tmp(block, qt, idx) == if idx % 8 == 0 {
        4 * d
    } else {
        0
    } by {
        let c = idx % 8;
        assert(dequantized(block, qt, c + 8) == 0 && dequantized(block, qt, c + 16) == 0);
        assert(dequantized(block, qt, c + 24) == 0 && dequantized(block, qt, c + 32) == 0);
        assert(dequantized(block, qt, c + 40) == 0 && dequantized(block, qt, c + 48) == 0);
        assert(dequantized(block, qt, c + 56) == 0);
        if c != 0 {
            assert(dequantized(block, qt, c) == 0);
        }
        assert(idct_column(block, qt, c)[idx / 8] == 512 + (if c == 0 { 4096 * d } else { 0 }));
    }
    let r = i / 8;
    assert(spec_idct_tmp(block, qt, 8 * r) == 4 * d);
    assert(spec_idct_tmp(block, qt, 8 * r + 1) == 0 && spec_idct_tmp(block, qt, 8 * r + 2) == 0);
    assert(spec_idct_tmp(block, qt, 8 * r + 3) == 0 && spec_idct_tmp(block, qt, 8 * r + 4) == 0);
    assert(spec_idct_tmp(block, qt, 8 * r + 5) == 0 && spec_idct_tmp(block, qt, 8 * r + 6) == 0);
    assert(spec_idct_tmp(block, qt, 8 * r + 7) == 0);
    lemma_idct_1d_dc(4 * d, SCALE_BITS as int);
    assert(spec_idct_tmp(block, qt, 0) == 4 * d);
    assert(spec_idct_tmp(block, qt, 1) == 0 && spec_idct_tmp(block, qt, 2) == 0);
    assert(spec_idct_tmp(block, qt, 3) == 0 && spec_idct_tmp(block, qt, 4) == 0);
    assert(spec_idct_tmp(block, qt, 5) == 0 && spec_idct_tmp(block, qt, 6) == 0);
    assert(spec_idct_tmp(block, qt, 7) == 0);
    assert(idct_row(block, qt, r)[i % 8] == SCALE_BITS + 16384 * d);
    assert(idct_row(block, qt, 0)[0] == SCALE_BITS + 16384 * d);
    let v = (SCALE_BITS + 16384 * d) / 131072;
    vstd::arithmetic::div_mod::lemma_fundamental_div_mod(SCALE_BITS + 16384 * d, 131072);
    assert(spec_idct(block, qt, i) == spec_clamp(v));
}

/// The one dimensional transform of both passes is the inverse DCT: output
/// `x` is `bias` plus the sum of the inputs weighted by the cosine basis,
/// up to twice the sum of the inputs' magnitudes (the rounding of the
/// constants).
pub proof fn lemma_idct_1d_is_inverse_dct(
    s0: int,
    s1: int,
    s2: int,
    s3: int,
    s4: int,
    s5: int,
    s6: int,
    s7: int,
    bias: int,
    x: int,
)
    requires
        0 <= x < 8,
    ensures
        ({
            let err = idct_1d(s0, s1, s2, s3, s4, s5, s6, s7, bias)[x] - bias - dct_sum(s0, s1, s2, s3, s4, s5, s6, s7, x);
            let mag = abs_int(s0) + abs_int(s1) + abs_int(s2) + abs_int(s3) + abs_int(s4) + abs_int(s5)
                + abs_int(s6) + abs_int(s7);
            -2 * mag <= err <= 2 * mag
        }),
{
    if x == 0 {
        lemma_idct_1d_output_0(s0, s1, s2, s3, s4, s5, s6, s7, bias);
    } else if x == 1 {
        lemma_idct_1d_output_1(s0, s1, s2, s3, s4, s5, s6, s7, bias);
    } else if x == 2 {
        lemma_idct_1d_output_2(s0, s1, s2, s3, s4, s5, s6, s7, bias);
    } else if x == 3 {
        lemma_idct_1d_output_3(s0, s1, s2, s3, s4, s5, s6, s7, bias);
    } else if x == 4 {
        lemma_idct_1d_output_4(s0, s1, s2, s3, s4, s5, s6, s7, bias);
    } else if x == 5 {
        lemma_idct_1d_output_5(s0, s1, s2, s3, s4, s5, s6, s7, bias);
    } else if x == 6 {
        lemma_idct_1d_output_6(s0, s1, s2, s3, s4, s5, s6, s7, bias);
    } else {
        lemma_idct_1d_output_7(s0, s1, s2, s3, s4, s5, s6, s7, bias);
    }
}

} // verus!
