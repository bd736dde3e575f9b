//! Up-sampling routines
//!
//! The main upsampling method is a bi-linear interpolation or a "triangle
//! filter" or libjpeg turbo `fancy_upsampling` which is a good compromise
//! between speed and visual quality.
//!
//! # The filter
//! Each output pixel is made from `(3*A+B)/4` where A is the original
//! pixel closer to the output and B is the one further.
//!
//! Horizontally, `A` is the input closest to the output; `B` is the previous
//! input for even positions and the next one for odd positions.
//!
//! Vertically, two output rows are made from a pair of input rows, each
//! giving weight 3 to its nearer row.
use vstd::prelude::*;

use crate::components::UpSampler;
use crate::misc::floor_div;

verus! {

/// The triangle filter: `(3 * a + b + 2) >> 2`, `a` the nearer sample.
pub open spec fn tri(a: int, b: int) -> int {
    (3 * a + b + 2) / 4
}

/// Every sample is in `0..=255`.
pub open spec fn samples_in_range(s: Seq<i16>) -> bool {
    forall|i: int| 0 <= i < s.len() ==> 0 <= #[trigger] s[i] <= 255
}

/// `(3 * a + b + 2) >> 2`, computed without overflow.
fn tri_exec(a: i16, b: i16) -> (r: i16)
    ensures
        r as int == tri(a as int, b as int),
        0 <= a <= 255 && 0 <= b <= 255 ==> 0 <= r <= 255,
{
    let v = floor_div(3 * (a as i128) + (b as i128) + 2, 4);
    v as i16
}

/// Number of interior pairs `upsample_horizontal` writes.
pub open spec fn h_windows(n: int, m: int) -> int {
    if (m - 2) / 2 <= n - 2 {
        (m - 2) / 2
    } else {
        n - 2
    }
}

/// Sample `j` of the horizontal up-sampling of `input` into `m` samples.
pub open spec fn upsample_h_at(input: Seq<i16>, m: int, j: int) -> i16 {
    let n = input.len() as int;
    let k = (j - 2) / 2;
    if j == m - 1 {
        input[n - 1]
    } else if j == m - 2 {
        tri(input[n - 1] as int, input[n - 2] as int) as i16
    } else if j == 0 {
        input[0]
    } else if j == 1 {
        tri(input[0] as int, input[1] as int) as i16
    } else if k < h_windows(n, m) {
        if j % 2 == 0 {
            tri(input[k + 1] as int, input[k] as int) as i16
        } else {
            tri(input[k + 1] as int, input[k + 2] as int) as i16
        }
    } else {
        0
    }
}

/// The horizontal up-sampling of `input` into `m` samples.
pub open spec fn upsample_h_spec(input: Seq<i16>, m: int) -> Seq<i16> {
    Seq::new(m as nat, |j: int| upsample_h_at(input, m, j))
}

/// The horizontal triangle filter, as the module documentation gives it:
/// up-sampling `n` samples to `2 n`, output `2 i` is
/// `(3 * input[i] + input[i - 1] + 2) / 4` and output `2 i + 1` is
/// `(3 * input[i] + input[i + 1] + 2) / 4`, the nearer input weighted 3; the
/// first and last outputs copy the first and last inputs, and their
/// neighbours blend the two inputs at that end.
pub proof fn lemma_upsample_h_triangle(input: Seq<i16>, i: int)
    requires
        input.len() >= 3,
        2 * input.len() <= usize::MAX,
        0 <= i < input.len(),
    ensures
        ({
            let n = input.len() as int;
            let out = upsample_h_spec(input, 2 * n);
            &&& out.len() == 2 * n
            &&& 1 <= i <= n - 2 ==> out[2 * i] as int == (3 * input[i] + input[i - 1] + 2) / 4
            &&& 1 <= i <= n - 2 ==> out[2 * i + 1] as int == (3 * input[i] + input[i + 1] + 2) / 4
            &&& i == 0 ==> out[0] == input[0] && out[1] as int == (3 * input[0] + input[1] + 2) / 4
            &&& i == n - 1 ==> out[2 * n - 1] == input[n - 1] && out[2 * n - 2] as int == (3
                * input[n - 1] + input[n - 2] + 2) / 4
        }),
{
    let n = input.len() as int;
    let m = 2 * n;
    assert(h_windows(n, m) == n - 2);
    if 1 <= i <= n - 2 {
        assert((2 * i - 2) / 2 == i - 1);
        assert((2 * i + 1 - 2) / 2 == i - 1);
        assert((2 * i) % 2 == 0 && (2 * i + 1) % 2 == 1);
        assert(-32768 <= tri(input[i] as int, input[i - 1] as int) <= 32767);
        assert(-32768 <= tri(input[i] as int, input[i + 1] as int) <= 32767);
    }
    assert(-32768 <= tri(input[0] as int, input[1] as int) <= 32767);
    assert(-32768 <= tri(input[n - 1] as int, input[n - 2] as int) <= 32767);
}

/// A flat row stays flat: up-sampling `n` equal samples to `2 n` gives
/// `2 n` copies of the sample.
pub proof fn lemma_upsample_h_flat(input: Seq<i16>, c: i16, j: int)
    requires
        input.len() >= 3,
        2 * input.len() <= usize::MAX,
        forall|k: int| 0 <= k < input.len() ==> #[trigger] input[k] == c,
        0 <= j < 2 * input.len(),
    ensures
        upsample_h_spec(input, 2 * input.len() as int)[j] == c,
{
    let n = input.len() as int;
    lemma_upsample_h_triangle(input, j / 2);
    assert(input[j / 2] == c);
    if j / 2 >= 1 {
        assert(input[j / 2 - 1] == c);
    }
    if j / 2 + 1 < n {
        assert(input[j / 2 + 1] == c);
    }
    assert(input[0] == c && input[1] == c && input[n - 1] == c && input[n - 2] == c);
    assert((3 * c + c + 2) / 4 == c);
    if j % 2 == 0 {
        assert(j == 2 * (j / 2));
    } else {
        assert(j == 2 * (j / 2) + 1);
    }
}

/// Upsample horizontally
///
/// The up-sampling algorithm used is libjpeg-turbo `fancy_upsampling` which is
/// a linear interpolation or triangle filter, see module docs for explanation.
/// Output sample `2 i` and `2 i + 1` come from input sample `i` and its
/// neighbours; the first and last samples are copied.
pub fn upsample_horizontal(input: &[i16], output_len: usize) -> (out: Vec<i16>)
    requires
        output_len > 4,
        input@.len() > 2,
    ensures
        out@ == upsample_h_spec(input@, output_len as int),
        samples_in_range(input@) ==> samples_in_range(out@),
{
    let n = input.len();
    let m = output_len;
    let mut out: Vec<i16> = vec![0; m];
    out.set(0, input[0]);
    out.set(1, tri_exec(input[0], input[1]));
    let windows = if (m - 2) / 2 <= n - 2 {
        (m - 2) / 2
    } else {
        n - 2
    };
    let mut k: usize = 0;
    while k < windows
        invariant
            n == input@.len(),
            n > 2,
            m > 4,
            out@.len() == m,
            windows == h_windows(n as int, m as int),
            k <= windows,
            out@[0] == input@[0],
            out@[1] == tri(input@[0] as int, input@[1] as int) as i16,
            forall|j: int| 2 <= j < 2 + 2 * k ==> #[trigger] out@[j] == upsample_h_at(input@, m as int, j)
                || j >= m - 2,
            forall|j: int| 2 + 2 * k <= j < m ==> #[trigger] out@[j] == 0,
            samples_in_range(input@) ==> samples_in_range(out@),
        decreases windows - k,
    {
        let even = tri_exec(input[k + 1], input[k]);
        let odd = tri_exec(input[k + 1], input[k + 2]);
        out.set(2 + 2 * k, even);
        out.set(3 + 2 * k, odd);
        assert((2 + 2 * k - 2) / 2 == k as int && (2 + 2 * k) % 2 == 0);
        assert((3 + 2 * k - 2) / 2 == k as int && (3 + 2 * k) % 2 == 1);
        k += 1;
    }
    out.set(m - 2, tri_exec(input[n - 1], input[n - 2]));
    out.set(m - 1, input[n - 1]);
    assert forall|j: int| 0 <= j < m implies #[trigger] out@[j] == upsample_h_at(input@, m as int, j) by {
        if 2 + 2 * k <= j < m - 2 {
            assert((j - 2) / 2 >= k);
        }
    }
    assert(out@ =~= upsample_h_spec(input@, m as int));
    out
}

/// Row `t` of the eight rows `upsample_vertical` blends with its row `t`:
/// row 0 with itself, then each row with the next, the last available row
/// with itself.
pub open spec fn v_far_row(t: int, rows: int) -> int {
    if t == 0 {
        0
    } else if t + 1 < rows {
        t + 1
    } else {
        rows - 1
    }
}

/// Sample `j` of the vertical up-sampling of `input` into `m` samples: the
/// input is read in rows of `s = len / 8` samples, and pass `t < 8` writes
/// two output rows at `2 t s` from input rows `t` and `v_far_row(t)`.
pub open spec fn upsample_v_at(input: Seq<i16>, m: int, j: int) -> i16 {
    let s = input.len() as int / 8;
    let rows = input.len() as int / s;
    let t = j / (2 * s);
    let w = j % (2 * s);
    let near = t * s;
    let far = v_far_row(t, rows) * s;
    if t >= 8 {
        0
    } else if w < s {
        if w < m - 2 * t * s - s {
            tri(input[near + w] as int, input[far + w] as int) as i16
        } else {
            0
        }
    } else {
        if w - s < m - 2 * t * s - s {
            tri(input[far + w - s] as int, input[near + w - s] as int) as i16
        } else {
            0
        }
    }
}

/// The vertical up-sampling of `input` into `m` samples.
pub open spec fn upsample_v_spec(input: Seq<i16>, m: int) -> Seq<i16> {
    Seq::new(m as nat, |j: int| upsample_v_at(input, m, j))
}

/// The vertical triangle filter on a plane of eight rows of `s` samples,
/// up-sampled to sixteen rows: rows `t` and `t + 1` make output rows `2 t`
/// and `2 t + 1`, each weighting its nearer input row by 3; the first and
/// the last input rows are each copied to two output rows.
pub proof fn lemma_upsample_v_rows(input: Seq<i16>, s: int, t: int, w: int)
    requires
        s >= 1,
        input.len() == 8 * s,
        0 <= t < 8,
        0 <= w < s,
    ensures
        ({
            let out = upsample_v_spec(input, 16 * s);
            &&& out.len() == 16 * s
            &&& t == 0 ==> out[w] == input[w] && out[s + w] == input[w]
            &&& 1 <= t <= 6 ==> out[2 * t * s + w] as int == (3 * input[t * s + w] + input[(t + 1) * s + w]
                + 2) / 4
            &&& 1 <= t <= 6 ==> out[2 * t * s + s + w] as int == (3 * input[(t + 1) * s + w] + input[t * s
                + w] + 2) / 4
            &&& t == 7 ==> out[14 * s + w] == input[7 * s + w] && out[15 * s + w] == input[7 * s + w]
        }),
{
    let n = input.len() as int;
    let m = 16 * s;
    assert(n / 8 == s);
    vstd::arithmetic::div_mod::lemma_div_multiples_vanish(8, s);
    assert((8 * s) / s == 8) by {
        vstd::arithmetic::div_mod::lemma_div_multiples_vanish(8, s);
        vstd::arithmetic::mul::lemma_mul_is_commutative(8, s);
    }
    let j0 = 2 * t * s + w;
    let j1 = 2 * t * s + s + w;
    assert(j0 == t * (2 * s) + w && j1 == t * (2 * s) + (s + w)) by (nonlinear_arith)
        requires
            j0 == 2 * t * s + w,
            j1 == 2 * t * s + s + w,
    ;
    vstd::arithmetic::div_mod::lemma_fundamental_div_mod_converse(j0, 2 * s, t, w);
    vstd::arithmetic::div_mod::lemma_fundamental_div_mod_converse(j1, 2 * s, t, s + w);
    assert(m - 2 * t * s - s == (15 - 2 * t) * s) by (nonlinear_arith)
        requires
            m == 16 * s,
    ;
    assert((15 - 2 * t) * s >= s) by (nonlinear_arith)
        requires
            t < 8,
            s >= 1,
    ;
    assert(t * s + w < 8 * s && (t + 1) * s + w <= 8 * s + w) by (nonlinear_arith)
        requires
            0 <= t < 8,
            0 <= w < s,
    ;
    assert(0 <= t * s) by (nonlinear_arith)
        requires
            t >= 0,
            s >= 1,
    ;
    if t <= 6 {
        assert((t + 1) * s + w < 8 * s) by (nonlinear_arith)
            requires
                0 <= t <= 6,
                0 <= w < s,
        ;
        assert((t + 1) * s == t * s + s) by (nonlinear_arith);
    }
    if t == 7 {
        assert(7 * s + w < 8 * s);
    }
    assert(-32768 <= tri(input[t * s + w] as int, input[v_far_row(t, 8) * s + w] as int) <= 32767);
    assert(-32768 <= tri(input[v_far_row(t, 8) * s + w] as int, input[t * s + w] as int) <= 32767);
    assert(tri(input[w] as int, input[w] as int) == input[w]);
    if t == 7 {
        assert(tri(input[7 * s + w] as int, input[7 * s + w] as int) == input[7 * s + w]);
    }
}

/// Vertical upsampling.
///
/// The algorithm is still a bi-linear filter with some caveats: the first
/// two output rows both come from the first input row, and the last input
/// row is blended with itself.
pub fn upsample_vertical(input: &[i16], output_len: usize) -> (out: Vec<i16>)
    requires
        input@.len() >= 8,
        output_len >= 15 * (input@.len() / 8),
    ensures
        out@ == upsample_v_spec(input@, output_len as int),
        samples_in_range(input@) ==> samples_in_range(out@),
{
    let n = input.len();
    let m = output_len;
    let stride = n / 8;
    let rows = n / stride;
    assert(rows >= 8 && rows * stride <= n) by {
        vstd::arithmetic::div_mod::lemma_fundamental_div_mod(n as int, stride as int);
        vstd::arithmetic::div_mod::lemma_mod_pos_bound(n as int, stride as int);
        vstd::arithmetic::div_mod::lemma_fundamental_div_mod(n as int, 8);
        assert(8 * stride <= n);
        vstd::arithmetic::div_mod::lemma_div_is_ordered(8 * stride as int, n as int, stride as int);
        vstd::arithmetic::div_mod::lemma_div_multiples_vanish(8, stride as int);
        vstd::arithmetic::mul::lemma_mul_is_commutative(rows as int, stride as int);
    }
    let mut out: Vec<i16> = vec![0; m];
    let mut t: usize = 0;
    while t < 8
        invariant
            n == input@.len(),
            stride == n / 8,
            stride >= 1,
            rows == n / stride,
            rows >= 8,
            rows * stride <= n,
            m >= 15 * stride,
            out@.len() == m,
            t <= 8,
            forall|j: int|
                0 <= j < t * (2 * stride) && j < m ==> #[trigger] out@[j] == upsample_v_at(
                    input@,
                    m as int,
                    j,
                ),
            forall|j: int| t * (2 * stride) <= j < m ==> #[trigger] out@[j] == 0,
            samples_in_range(input@) ==> samples_in_range(out@),
        decreases 8 - t,
    {
        let far_row = if t == 0 {
            0
        } else if t + 1 < rows {
            t + 1
        } else {
            rows - 1
        };
        assert(t * stride + stride <= rows * stride && far_row * stride + stride <= rows * stride) by (
        nonlinear_arith)
            requires
                t < 8,
                8 <= rows,
                far_row < rows,
                stride >= 1,
        ;
        assert(t * (2 * stride) + stride <= m && t * (2 * stride) == 2 * t * stride) by (nonlinear_arith)
            requires
                t < 8,
                m >= 15 * stride,
        ;
        let i = t * (2 * stride);
        let near = t * stride;
        let far = far_row * stride;
        let limit = if stride <= m - i - stride {
            stride
        } else {
            m - i - stride
        };
        let mut x: usize = 0;
        while x < limit
            invariant
                n == input@.len(),
                stride == n / 8,
                stride >= 1,
                rows == n / stride,
                rows >= 8,
                m >= 15 * stride,
                out@.len() == m,
                t < 8,
                i == t * (2 * stride),
                i == 2 * t * stride,
                i + stride <= m,
                near == t * stride,
                far == v_far_row(t as int, rows as int) * stride,
                near + stride <= n,
                far + stride <= n,
                limit <= stride,
                limit <= m - i - stride,
                x <= limit,
                forall|j: int| 0 <= j < i ==> #[trigger] out@[j] == upsample_v_at(input@, m as int, j),
                forall|j: int|
                    i <= j < i + x ==> #[trigger] out@[j] == upsample_v_at(input@, m as int, j),
                forall|j: int|
                    i + stride <= j < i + stride + x ==> #[trigger] out@[j] == upsample_v_at(
                        input@,
                        m as int,
                        j,
                    ),
                forall|j: int|
                    i + x <= j < m && !(i + stride <= j < i + stride + x) ==> #[trigger] out@[j] == 0,
                samples_in_range(input@) ==> samples_in_range(out@),
            decreases limit - x,
        {
            let a = input[near + x];
            let b = input[far + x];
            out.set(i + x, tri_exec(a, b));
            out.set(i + stride + x, tri_exec(b, a));
            proof {
                vstd::arithmetic::div_mod::lemma_fundamental_div_mod_converse(
                    i + x,
                    2 * stride as int,
                    t as int,
                    x as int,
                );
                vstd::arithmetic::div_mod::lemma_fundamental_div_mod_converse(
                    i + stride + x,
                    2 * stride as int,
                    t as int,
                    stride + x,
                );
            }
            x += 1;
        }
        assert forall|j: int| i <= j < i + 2 * stride && j < m implies #[trigger] out@[j] == upsample_v_at(
            input@,
            m as int,
            j,
        ) by {
            if !(i <= j < i + x) && !(i + stride <= j < i + stride + x) {
                let w = j - i;
                vstd::arithmetic::div_mod::lemma_fundamental_div_mod_converse(
                    j,
                    2 * stride as int,
                    t as int,
                    w,
                );
            }
        }
        assert((t + 1) * (2 * stride) == i + 2 * stride) by (nonlinear_arith)
            requires
                i == t * (2 * stride),
        ;
        t += 1;
    }
    assert(8 * (2 * stride) == 16 * stride);
    assert forall|j: int| 0 <= j < m implies #[trigger] out@[j] == upsample_v_at(input@, m as int, j) by {
        if j >= 16 * stride {
            vstd::arithmetic::div_mod::lemma_div_is_ordered(16 * stride as int, j, 2 * stride as int);
            vstd::arithmetic::div_mod::lemma_div_multiples_vanish(8, 2 * stride as int);
            assert(16 * stride == 8 * (2 * stride));
        }
    }
    assert(out@ =~= upsample_v_spec(input@, m as int));
    out
}

/// Up-sample in both directions: vertically to twice the samples, then
/// horizontally to `output_len`.
pub fn upsample_hv(input: &[i16], output_len: usize) -> (out: Vec<i16>)
    requires
        input@.len() >= 8,
        2 * input@.len() <= usize::MAX,
        output_len > 4,
    ensures
        out@ == upsample_h_spec(upsample_v_spec(input@, 2 * input@.len() as int), output_len as int),
{
    assert(2 * input@.len() >= 15 * (input@.len() / 8));
    let first_pass = upsample_vertical(input, input.len() * 2);
    let second_pass = upsample_horizontal(first_pass.as_slice(), output_len);
    second_pass
}

/// Upsample in both directions: the rows are doubled, then the samples of
/// each row, bringing a plane halved both ways to full size.
pub fn upsample_horizontal_vertical(input: &[i16], output_len: usize) -> (out: Vec<i16>)
    requires
        input@.len() >= 8,
        2 * input@.len() <= usize::MAX,
        output_len > 4,
    ensures
        out@ == upsample_h_spec(upsample_v_spec(input@, 2 * input@.len() as int), output_len as int),
{
    upsample_hv(input, output_len)
}

/// Upsample nothing; the result is empty.
pub fn upsample_no_op(_input: &[i16], _output_len: usize) -> (out: Vec<i16>)
    ensures
        out@.len() == 0,
{
    Vec::new()
}

/// Choose the best possible horizontal implementation for this platform:
/// the portable one.
pub fn choose_horizontal_samp_function() -> (f: UpSampler)
    ensures
        f == UpSampler::Horizontal,
{
    UpSampler::Horizontal
}

} // verus!
