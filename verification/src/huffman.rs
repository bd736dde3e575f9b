//! Huffman tables as defined in a DHT segment, with lookup tables that make
//! decoding fast.
//!
//! The model is the canonical Huffman code of JPEG (ITU T.81, Annex C): the
//! sixteen counts say how many codes of each length 1..=16 there are; codes of
//! one length are consecutive integers, and the first code of length `l + 1` is
//! twice one past the last code of length `l`.
use vstd::prelude::*;
use vstd::arithmetic::power2::*;

use crate::errors::{message, DecodeErrors};

verus! {

/// Number of bits looked up at once in the fast tables.
pub const FAST_BITS: usize = 9;

// ---------------------------------------------------------------------------
// The canonical code
// ---------------------------------------------------------------------------
/// Number of codes of length `l`.
pub open spec fn count_of(counts: Seq<u8>, l: int) -> int {
    if 1 <= l <= 16 {
        counts[l - 1] as int
    } else {
        0
    }
}

/// Index (in code order) of the first symbol whose code has length `l`.
pub open spec fn first_index(counts: Seq<u8>, l: int) -> int
    decreases l,
{
    if l <= 1 {
        0
    } else {
        first_index(counts, l - 1) + count_of(counts, l - 1)
    }
}

/// The first code of length `l`.
pub open spec fn first_code(counts: Seq<u8>, l: int) -> int
    decreases l,
{
    if l <= 1 {
        0
    } else {
        (first_code(counts, l - 1) + count_of(counts, l - 1)) * 2
    }
}

/// One past the last code of length `l`.
pub open spec fn next_code(counts: Seq<u8>, l: int) -> int {
    first_code(counts, l) + count_of(counts, l)
}

/// Total number of symbols in the table.
pub open spec fn total_symbols(counts: Seq<u8>) -> int {
    first_index(counts, 17)
}

/// Code length of the symbol with index `k`, searching from length `l`.
pub open spec fn length_from(counts: Seq<u8>, k: int, l: int) -> int
    decreases 17 - l,
{
    if l > 16 {
        17
    } else if k < first_index(counts, l + 1) {
        l
    } else {
        length_from(counts, k, l + 1)
    }
}

/// Code length of the symbol with index `k`.
pub open spec fn code_length(counts: Seq<u8>, k: int) -> int {
    length_from(counts, k, 1)
}

/// Canonical code of the symbol with index `k`.
pub open spec fn canonical_code(counts: Seq<u8>, k: int) -> int {
    let l = code_length(counts, k);
    first_code(counts, l) + (k - first_index(counts, l))
}

/// The counts describe a code that JPEG can use: at most 256 symbols, and the
/// codes of each length fit in that many bits.
pub open spec fn valid_counts(counts: Seq<u8>) -> bool {
    &&& counts.len() == 16
    &&& total_symbols(counts) <= 256
    &&& forall|l: int| 1 <= l <= 16 ==> #[trigger] next_code(counts, l) <= pow2(l as nat)
}

/// Smallest code length `l' >= l` whose codes reach beyond the 16-bit window
/// `w`, or 17 when none does.
pub open spec fn decode_length_from(counts: Seq<u8>, w: int, l: int) -> int
    decreases 17 - l,
{
    if l > 16 {
        17
    } else if w < next_code(counts, l) * pow2((16 - l) as nat) {
        l
    } else {
        decode_length_from(counts, w, l + 1)
    }
}

/// Canonical Huffman decoding of the 16-bit window `w` (the next sixteen bits
/// of the stream, first bit most significant): the length of the code that
/// starts the window and the index of its symbol, or `None` when no code does.
pub open spec fn spec_huff_decode(counts: Seq<u8>, w: int) -> Option<(int, int)> {
    let l = decode_length_from(counts, w, 1);
    if l > 16 {
        None
    } else {
        Some((l, w / pow2((16 - l) as nat) as int - first_code(counts, l) + first_index(counts, l)))
    }
}

// ---------------------------------------------------------------------------
// Facts about the canonical code
// ---------------------------------------------------------------------------
pub proof fn lemma_first_index_monotone(counts: Seq<u8>, a: int, b: int)
    requires
        a <= b,
    ensures
        first_index(counts, a) <= first_index(counts, b),
    decreases b - a,
{
    if a < b {
        lemma_first_index_monotone(counts, a, b - 1);
        assert(count_of(counts, b - 1) >= 0);
    }
}

pub proof fn lemma_first_index_nonneg(counts: Seq<u8>, l: int)
    ensures
        first_index(counts, l) >= 0,
        first_code(counts, l) >= 0,
    decreases l,
{
    if l > 1 {
        lemma_first_index_nonneg(counts, l - 1);
    }
}

/// The symbol index `k` lies in the block of codes of length `length_from`.
pub proof fn lemma_length_from(counts: Seq<u8>, k: int, l: int)
    requires
        1 <= l <= 17,
        first_index(counts, l) <= k < first_index(counts, 17),
    ensures
        l <= length_from(counts, k, l) <= 16,
        first_index(counts, length_from(counts, k, l)) <= k < first_index(
            counts,
            length_from(counts, k, l) + 1,
        ),
    decreases 17 - l,
{
    if l > 16 {
    } else if k < first_index(counts, l + 1) {
    } else {
        lemma_length_from(counts, k, l + 1);
    }
}

/// Symbols between the first indices of length `l` and `l + 1` have length `l`.
pub proof fn lemma_code_length_block(counts: Seq<u8>, k: int, l: int)
    requires
        1 <= l <= 16,
        first_index(counts, l) <= k < first_index(counts, l + 1),
    ensures
        code_length(counts, k) == l,
{
    lemma_length_from_is(counts, k, 1, l);
}

proof fn lemma_length_from_is(counts: Seq<u8>, k: int, from: int, l: int)
    requires
        1 <= from <= l <= 16,
        first_index(counts, l) <= k < first_index(counts, l + 1),
    ensures
        length_from(counts, k, from) == l,
    decreases l - from,
{
    if from < l {
        lemma_first_index_monotone(counts, from + 1, l);
        lemma_length_from_is(counts, k, from + 1, l);
    }
}

/// The window limits of consecutive lengths chain up: the codes of length `l`
/// start in the 16-bit window where those of length `l - 1` end.
pub proof fn lemma_window_start(counts: Seq<u8>, l: int)
    requires
        2 <= l <= 16,
    ensures
        first_code(counts, l) * pow2((16 - l) as nat) == next_code(counts, l - 1) * pow2(
            (16 - (l - 1)) as nat,
        ),
{
    lemma_pow2_unfold((16 - (l - 1)) as nat);
    assert(first_code(counts, l) == next_code(counts, l - 1) * 2);
    vstd::arithmetic::mul::lemma_mul_is_associative(
        next_code(counts, l - 1),
        2,
        pow2((16 - l) as nat) as int,
    );
}

/// Window limits grow with the code length.
pub proof fn lemma_window_limits_grow(counts: Seq<u8>, a: int, b: int)
    requires
        1 <= a < b <= 16,
    ensures
        next_code(counts, a) * pow2((16 - a) as nat) <= first_code(counts, b) * pow2(
            (16 - b) as nat,
        ),
    decreases b - a,
{
    lemma_window_start(counts, b);
    if a < b - 1 {
        lemma_window_limits_grow(counts, a, b - 1);
        // first_code(b-1) <= next_code(b-1)
        assert(count_of(counts, b - 1) >= 0);
        vstd::arithmetic::mul::lemma_mul_inequality(
            first_code(counts, b - 1),
            next_code(counts, b - 1),
            pow2((16 - (b - 1)) as nat) as int,
        );
    }
}

/// Decoding a window that starts with the canonical code of symbol `k` gives
/// back symbol `k` and the length of its code.
pub proof fn lemma_decode_inverts_code(counts: Seq<u8>, k: int, w: int)
    requires
        valid_counts(counts),
        0 <= k < total_symbols(counts),
        0 <= w < 65536,
        w / pow2((16 - code_length(counts, k)) as nat) as int == canonical_code(counts, k),
    ensures
        spec_huff_decode(counts, w) == Some((code_length(counts, k), k)),
{
    let l = code_length(counts, k);
    lemma_length_from(counts, k, 1);
    let p = pow2((16 - l) as nat) as int;
    lemma_pow2_pos((16 - l) as nat);
    let c = canonical_code(counts, k);
    // w lies in [c * p, (c + 1) * p)
    vstd::arithmetic::div_mod::lemma_fundamental_div_mod(w, p);
    assert(w == p * (w / p) + w % p);
    assert(0 <= w % p < p) by {
        vstd::arithmetic::div_mod::lemma_mod_pos_bound(w, p);
    }
    vstd::arithmetic::mul::lemma_mul_is_commutative(p, c);
    assert(c * p <= w < (c + 1) * p) by {
        vstd::arithmetic::mul::lemma_mul_is_distributive_add(p, c, 1);
    }
    // c + 1 <= next_code(l)
    assert(c + 1 <= next_code(counts, l));
    vstd::arithmetic::mul::lemma_mul_inequality(c + 1, next_code(counts, l), p);
    assert(w < next_code(counts, l) * p);
    // for shorter lengths the window is past their codes
    assert(forall|a: int|
        1 <= a < l ==> w >= #[trigger] next_code(counts, a) * pow2((16 - a) as nat)) by {
        assert forall|a: int| 1 <= a < l implies w >= #[trigger] next_code(counts, a) * pow2(
            (16 - a) as nat,
        ) by {
            lemma_window_limits_grow(counts, a, l);
            assert(first_code(counts, l) <= c);
            vstd::arithmetic::mul::lemma_mul_inequality(first_code(counts, l), c, p);
        }
    }
    lemma_decode_length_from_is(counts, w, 1, l);
}

pub proof fn lemma_decode_length_from_is(counts: Seq<u8>, w: int, from: int, l: int)
    requires
        1 <= from <= l <= 16,
        w < next_code(counts, l) * pow2((16 - l) as nat),
        forall|a: int| 1 <= a < l ==> w >= #[trigger] next_code(counts, a) * pow2((16 - a) as nat),
    ensures
        decode_length_from(counts, w, from) == l,
    decreases l - from,
{
    if from < l {
        lemma_decode_length_from_is(counts, w, from + 1, l);
    }
}

/// A window past the codes of every length decodes to nothing.
pub proof fn lemma_decode_length_from_none(counts: Seq<u8>, w: int, from: int)
    requires
        1 <= from <= 17,
        forall|a: int| from <= a <= 16 ==> w >= #[trigger] next_code(counts, a) * pow2((16 - a) as nat),
    ensures
        decode_length_from(counts, w, from) == 17,
    decreases 17 - from,
{
    if from <= 16 {
        lemma_decode_length_from_none(counts, w, from + 1);
    }
}

// ---------------------------------------------------------------------------
// The table
// ---------------------------------------------------------------------------
/// A Huffman table with the lookup tables used while decoding.
pub struct HuffmanTable {
    /// For each 9-bit window, the index of the symbol whose code (of at most
    /// nine bits) starts the window, or 255
    pub fast: Vec<u8>,
    /// Canonical code of each symbol index
    pub code: Vec<u16>,
    /// Symbol values in code order
    pub values: Vec<u8>,
    /// Code length of each symbol index, followed by a zero
    pub size: Vec<u8>,
    /// One past the last code of each length, shifted to a 16-bit window;
    /// the entry for length 16 accepts every window
    pub maxcode: Vec<u32>,
    /// First symbol index minus first code, for each length
    pub delta: Vec<i32>,
    /// Table for decoding fast AC values
    pub fast_ac: Option<Vec<i16>>,
    /// The counts of codes of each length that the table was built from
    pub counts: Ghost<Seq<u8>>,
}

/// The entry of the fast AC table for a 9-bit window: the coefficient value
/// times 256, plus its zero run times 16, plus the bits its code and
/// magnitude take together; zero when the window does not hold them all.
pub open spec fn spec_fast_ac_entry(fast: u8, rs: u8, len: int, i: int) -> i16 {
    if fast == 255 {
        0
    } else {
        let run = (rs / 16) as int;
        let mag = (rs % 16) as int;
        if mag != 0 && len + mag <= 9 {
            let raw = ((i * pow2(len as nat)) % 512) / pow2((9 - mag) as nat) as int;
            let k = if raw < pow2((mag - 1) as nat) {
                raw + 1 - pow2(mag as nat)
            } else {
                raw
            };
            if -128 <= k <= 127 {
                (k * 256 + run * 16 + len + mag) as i16
            } else {
                0
            }
        } else {
            0
        }
    }
}

impl HuffmanTable {
    /// The counts of codes of each length the table was built from.
    pub open spec fn spec_counts(&self) -> Seq<u8> {
        self.counts@
    }

    /// Symbol values in code order.
    pub open spec fn spec_values(&self) -> Seq<u8> {
        self.values@
    }

    /// The lookup tables agree with the canonical code of the counts.
    /// Every window of nine bits that starts with a code of at most nine
    /// bits (among the first 255 symbols) has a fast entry, and the size
    /// list ends with a zero after the last symbol.
    pub open spec fn fast_complete(&self) -> bool {
        let counts = self.counts@;
        &&& self.size@[total_symbols(counts)] == 0
        &&& forall|c: int, k: int|
            #![trigger self.fast@[c], canonical_code(counts, k)]
            0 <= c < 512 && 0 <= k < total_symbols(counts) && k < 255 && code_length(counts, k) <= 9
                && c / pow2((9 - code_length(counts, k)) as nat) as int == canonical_code(counts, k)
                ==> self.fast@[c] != 255
    }

    pub open spec fn wf(&self) -> bool {
        let counts = self.counts@;
        let n = total_symbols(counts);
        &&& valid_counts(counts)
        &&& self.values@.len() == n
        &&& self.fast@.len() == 512
        &&& self.code@.len() == 256
        &&& self.size@.len() == 257
        &&& self.maxcode@.len() == 18
        &&& self.delta@.len() == 17
        &&& forall|k: int| 0 <= k < n ==> #[trigger] self.size@[k] == code_length(counts, k)
        &&& forall|k: int| 0 <= k < n ==> #[trigger] self.code@[k] == canonical_code(counts, k)
        &&& forall|l: int|
            1 <= l <= 16 ==> #[trigger] self.delta@[l] == first_index(counts, l) - first_code(
                counts,
                l,
            )
        &&& forall|l: int|
            1 <= l < 16 ==> #[trigger] self.maxcode@[l] == next_code(counts, l) * pow2(
                (16 - l) as nat,
            )
        &&& self.maxcode@[16] == 0xffff_ffffu32
        &&& forall|c: int|
            0 <= c < 512 && #[trigger] self.fast@[c] != 255 ==> {
                let k = self.fast@[c] as int;
                &&& k < n
                &&& code_length(counts, k) <= 9
                &&& c / pow2((9 - code_length(counts, k)) as nat) as int == canonical_code(
                    counts,
                    k,
                )
            }
        &&& self.fast_ac matches Some(t) ==> {
            &&& t@.len() == 512
            &&& forall|i: int|
                0 <= i < 512 ==> #[trigger] t@[i] == spec_fast_ac_entry(
                    self.fast@[i],
                    if self.fast@[i] != 255 {
                        self.values@[self.fast@[i] as int]
                    } else {
                        0u8
                    },
                    if self.fast@[i] != 255 {
                        self.size@[self.fast@[i] as int] as int
                    } else {
                        0
                    },
                    i,
                )
        }
    }
}

/// Check that the counts of a DHT segment describe a usable canonical code.
pub fn check_counts(counts: &[u8; 16]) -> (ok: bool)
    ensures
        ok == valid_counts(counts@),
{
    let mut total: u32 = 0;
    let mut code: u32 = 0;
    let mut j: usize = 1;
    let mut ok = true;
    while j <= 16
        invariant
            1 <= j <= 17,
            counts@.len() == 16,
            total == first_index(counts@, j as int),
            total <= 256 * (j - 1),
            ok ==> code == first_code(counts@, j as int),
            ok ==> code <= pow2((j - 1) as nat) * 2,
            ok <==> forall|l: int| 1 <= l < j ==> #[trigger] next_code(counts@, l) <= pow2(l as nat),
        decreases 17 - j,
    {
        let c = counts[j - 1] as u32;
        assert(c == count_of(counts@, j as int));
        total = total + c;
        proof {
            lemma_pow2_pos(j as nat);
            lemma2_to64();
            if j < 16 {
                lemma_pow2_strictly_increases(j as nat, 16);
            }
            assert(pow2(16) == 65536) by {
                lemma2_to64();
            }
        }
        if ok {
            let next = code + c;
            let limit: u32 = 1u32 << (j as u32);
            proof {
                vstd::bits::lemma_u32_shl_is_mul(1, j as u32);
            }
            if next > limit {
                assert(next_code(counts@, j as int) > pow2(j as nat));
                ok = false;
            } else {
                assert(next_code(counts@, j as int) <= pow2(j as nat));
                code = next * 2;
                proof {
                    lemma_pow2_unfold(j as nat);
                }
            }
        }
        proof {
            if ok {
                assert(forall|l: int| 1 <= l < j + 1 ==> #[trigger] next_code(counts@, l) <= pow2(
                    l as nat,
                ));
            }
        }
        j += 1;
    }
    ok && total <= 256
}

/// A failed table check.
fn bad_table() -> (e: DecodeErrors)
    ensures
        e matches DecodeErrors::HuffmanDecode(m) && m@ == "Bad Huffman table: code lengths do not fit"@,
{
    DecodeErrors::HuffmanDecode(message("Bad Huffman table: code lengths do not fit"))
}

impl HuffmanTable {
    /// Build the table for the codes counted in `codes` (number of codes of
    /// each length 1..=16) and the symbol values `data` in code order.
    ///
    /// `is_ac` asks for the fast table that decodes small AC coefficients.
    /// Fails when the counts do not describe a canonical code of at most 256
    /// symbols, or when `data` does not hold exactly one value per code.
    pub fn new(codes: &[u8; 16], data: Vec<u8>, is_ac: bool) -> (res: Result<
        HuffmanTable,
        DecodeErrors,
    >)
        ensures
            res is Ok <==> (valid_counts(codes@) && data@.len() == total_symbols(codes@)),
            res is Err ==> (res matches Err(DecodeErrors::HuffmanDecode(m)) && m@
                == "Bad Huffman table: code lengths do not fit"@),
            res matches Ok(t) ==> {
                &&& t.wf()
                &&& t.fast_complete()
                &&& t.spec_counts() == codes@
                &&& t.spec_values() == data@
                &&& (t.fast_ac is Some <==> is_ac)
            },
    {
        if !check_counts(codes) {
            return Err(bad_table());
        }
        let total = symbol_total(codes);
        if data.len() != total {
            return Err(bad_table());
        }
        let mut table = HuffmanTable {
            fast: vec![255u8; 512],
            code: vec![0u16; 256],
            values: data,
            size: vec![0u8; 257],
            maxcode: vec![0u32; 18],
            delta: vec![0i32; 17],
            fast_ac: None,
            counts: Ghost(codes@),
        };
        table.build_huffman(codes);
        if is_ac {
            table.build_fast_ac();
        }
        Ok(table)
    }
}

/// Division undoes a shift that left room for `j` below.
proof fn lemma_div_shifted(a: int, p: int, j: int)
    requires
        p > 0,
        0 <= j < p,
        a >= 0,
    ensures
        (a * p + j) / p == a,
{
    vstd::arithmetic::div_mod::lemma_fundamental_div_mod_converse(a * p + j, p, a, j);
}

pub proof fn lemma_canonical_code_bounds(counts: Seq<u8>, k: int)
    requires
        valid_counts(counts),
        0 <= k < total_symbols(counts),
    ensures
        1 <= code_length(counts, k) <= 16,
        first_index(counts, code_length(counts, k)) <= k < first_index(
            counts,
            code_length(counts, k) + 1,
        ),
        0 <= canonical_code(counts, k) < next_code(counts, code_length(counts, k)),
        canonical_code(counts, k) < pow2(code_length(counts, k) as nat),
{
    lemma_length_from(counts, k, 1);
    let l = code_length(counts, k);
    lemma_first_index_nonneg(counts, l);
    assert(next_code(counts, l) <= pow2(l as nat));
}

impl HuffmanTable {
    /// Fill `size`, `code`, `delta`, `maxcode` and `fast` from the counts.
    fn build_huffman(&mut self, count: &[u8; 16])
        requires
            valid_counts(count@),
            old(self).counts@ == count@,
            old(self).values@.len() == total_symbols(count@),
            old(self).fast@.len() == 512,
            forall|c: int| 0 <= c < 512 ==> #[trigger] old(self).fast@[c] == 255,
            old(self).code@.len() == 256,
            old(self).size@.len() == 257,
            old(self).maxcode@.len() == 18,
            old(self).delta@.len() == 17,
            old(self).fast_ac is None,
        ensures
            final(self).wf(),
            final(self).fast_complete(),
            final(self).counts == old(self).counts,
            final(self).values == old(self).values,
            final(self).fast_ac is None,
    {
        let ghost counts = count@;
        let ghost n = total_symbols(counts);
        // Generate a table of Huffman code sizes (Figure C.1)
        let mut k: usize = 0;
        let mut i: usize = 0;
        while i < 16
            invariant
                i <= 16,
                counts == count@,
                counts.len() == 16,
                valid_counts(counts),
                n == total_symbols(counts),
                k == first_index(counts, i as int + 1),
                k <= n,
                self.size@.len() == 257,
                self.code@.len() == 256,
                self.delta@.len() == 17,
                self.maxcode@.len() == 18,
                self.fast@.len() == 512,
                forall|c: int| 0 <= c < 512 ==> #[trigger] self.fast@[c] == 255,
                self.counts@ == counts,
                self.values@.len() == n,
                self.values == old(self).values,
                self.counts == old(self).counts,
                self.fast_ac is None,
                forall|m: int| 0 <= m < k ==> #[trigger] self.size@[m] == code_length(counts, m),
            decreases 16 - i,
        {
            let c = count[i];
            let mut r: u8 = 0;
            proof {
                lemma_first_index_monotone(counts, i as int + 2, 17);
            }
            while r < c
                invariant
                    i < 16,
                    counts == count@,
                    counts.len() == 16,
                    c == counts[i as int],
                    r <= c,
                    k == first_index(counts, i as int + 1) + r,
                    first_index(counts, i as int + 2) <= n,
                    n <= 256,
                    self.size@.len() == 257,
                    self.code@.len() == 256,
                    self.delta@.len() == 17,
                    self.maxcode@.len() == 18,
                    self.fast@.len() == 512,
                    forall|c: int| 0 <= c < 512 ==> #[trigger] self.fast@[c] == 255,
                    self.counts@ == counts,
                    self.values@.len() == n,
                    self.values == old(self).values,
                    self.counts == old(self).counts,
                    self.fast_ac is None,
                    forall|m: int| 0 <= m < k ==> #[trigger] self.size@[m] == code_length(counts, m),
                decreases c - r,
            {
                proof {
                    lemma_code_length_block(counts, k as int, i as int + 1);
                }
                self.size.set(k, (i + 1) as u8);
                k += 1;
                r += 1;
            }
            i += 1;
        }
        // last size should be zero.
        self.size.set(k, 0);
        assert(k == n);
        // compute actual symbols
        k = 0;
        let mut code: u32 = 0;
        let mut j: usize = 1;
        while j <= 16
            invariant
                1 <= j <= 17,
                counts == count@,
                valid_counts(counts),
                n == total_symbols(counts),
                k == first_index(counts, j as int),
                code == first_code(counts, j as int),
                code <= pow2((j - 1) as nat) * 2,
                self.size@.len() == 257,
                self.code@.len() == 256,
                self.delta@.len() == 17,
                self.maxcode@.len() == 18,
                self.fast@.len() == 512,
                forall|c: int| 0 <= c < 512 ==> #[trigger] self.fast@[c] == 255,
                self.counts@ == counts,
                self.values@.len() == n,
                self.values == old(self).values,
                self.counts == old(self).counts,
                self.fast_ac is None,
                self.size@[n] == 0,
                forall|m: int| 0 <= m < n ==> #[trigger] self.size@[m] == code_length(counts, m),
                forall|m: int| 0 <= m < k ==> #[trigger] self.code@[m] == canonical_code(counts, m),
                forall|l: int|
                    1 <= l < j ==> #[trigger] self.delta@[l] == first_index(counts, l) - first_code(
                        counts,
                        l,
                    ),
                forall|l: int|
                    1 <= l < j ==> #[trigger] self.maxcode@[l] == next_code(counts, l) * pow2(
                        (16 - l) as nat,
                    ),
            decreases 17 - j,
        {
            proof {
                lemma_first_index_monotone(counts, j as int, 17);
                lemma_first_index_monotone(counts, j as int + 1, 17);
                lemma_pow2_pos(j as nat);
                lemma2_to64();
                if j < 16 {
                    lemma_pow2_strictly_increases(j as nat, 16);
                }
                assert(next_code(counts, j as int) <= pow2(j as nat));
            }
            // compute delta to add code to compute symbol id
            self.delta.set(j, k as i32 - code as i32);
            while (self.size[k] as usize) == j
                invariant
                    1 <= j <= 16,
                    counts == count@,
                    valid_counts(counts),
                    n == total_symbols(counts),
                    first_index(counts, j as int) <= k <= first_index(counts, j as int + 1),
                    first_index(counts, j as int + 1) <= n,
                    n <= 256,
                    code == first_code(counts, j as int) + (k - first_index(counts, j as int)),
                    next_code(counts, j as int) <= pow2(j as nat),
                    pow2(j as nat) <= 65536,
                    self.size@.len() == 257,
                    self.code@.len() == 256,
                    self.delta@.len() == 17,
                    self.maxcode@.len() == 18,
                    self.delta@[j as int] == first_index(counts, j as int) - first_code(counts, j as int),
                    forall|l: int|
                        1 <= l < j ==> #[trigger] self.delta@[l] == first_index(counts, l) - first_code(
                            counts,
                            l,
                        ),
                    forall|l: int|
                        1 <= l < j ==> #[trigger] self.maxcode@[l] == next_code(counts, l) * pow2(
                            (16 - l) as nat,
                        ),
                    self.fast@.len() == 512,
                    forall|c: int| 0 <= c < 512 ==> #[trigger] self.fast@[c] == 255,
                    self.counts@ == counts,
                    self.values@.len() == n,
                    self.values == old(self).values,
                    self.counts == old(self).counts,
                    self.fast_ac is None,
                    self.size@[n] == 0,
                    forall|m: int|
                        0 <= m < n ==> #[trigger] self.size@[m] == code_length(counts, m),
                    forall|m: int|
                        0 <= m < k ==> #[trigger] self.code@[m] == canonical_code(counts, m),
                decreases first_index(counts, j as int + 1) - k,
            {
                proof {
                    if k as int == first_index(counts, j as int + 1) {
                        if k < n {
                            lemma_length_from(counts, k as int, 1);
                            let l = code_length(counts, k as int);
                            if l < j + 1 {
                                lemma_first_index_monotone(counts, l + 1, j as int);
                            } else if l > j + 1 {
                            }
                        }
                        assert(false);
                    }
                    lemma_code_length_block(counts, k as int, j as int);
                }
                self.code.set(k, code as u16);
                code += 1;
                k += 1;
            }
            proof {
                if (k as int) < first_index(counts, j as int + 1) {
                    lemma_code_length_block(counts, k as int, j as int);
                }
                assert(k == first_index(counts, j as int + 1));
                assert(code == next_code(counts, j as int));
                lemma_pow2_adds(j as nat, (16 - j) as nat);
                vstd::arithmetic::mul::lemma_mul_inequality(
                    code as int,
                    pow2(j as nat) as int,
                    pow2((16 - j) as nat) as int,
                );
                assert(code * pow2((16 - j) as nat) <= 65536);
                vstd::bits::lemma_u32_shl_is_mul(code, (16 - j) as u32);
            }
            // the largest code of this size, pre-shifted as needed later
            self.maxcode.set(j, code << ((16 - j) as u32));
            code = code * 2;
            proof {
                lemma_pow2_unfold(j as nat);
            }
            j += 1;
        }
        self.maxcode.set(16, 0xffff_ffff);
        // build a non spec acceleration table; 255 is flag for not accelerated
        let mut i: usize = 0;
        while i < k
            invariant
                counts == count@,
                valid_counts(counts),
                n == total_symbols(counts),
                k == n,
                i <= k,
                self.values == old(self).values,
                self.counts == old(self).counts,
                self.fast_ac is None,
                self.delta@.len() == 17,
                self.maxcode@.len() == 18,
                self.maxcode@[16] == 0xffff_ffffu32,
                forall|l: int|
                    1 <= l <= 16 ==> #[trigger] self.delta@[l] == first_index(counts, l) - first_code(
                        counts,
                        l,
                    ),
                forall|l: int|
                    1 <= l < 16 ==> #[trigger] self.maxcode@[l] == next_code(counts, l) * pow2(
                        (16 - l) as nat,
                    ),
                self.counts@ == counts,
                self.values@.len() == n,
                self.fast@.len() == 512,
                self.size@.len() == 257,
                self.code@.len() == 256,
                forall|m: int| 0 <= m < n ==> #[trigger] self.size@[m] == code_length(counts, m),
                forall|m: int| 0 <= m < n ==> #[trigger] self.code@[m] == canonical_code(counts, m),
                self.size@[n] == 0,
                forall|c: int, q: int|
                    #![trigger self.fast@[c], canonical_code(counts, q)]
                    0 <= c < 512 && 0 <= q < i && q < 255 && code_length(counts, q) <= 9 && c / pow2(
                        (9 - code_length(counts, q)) as nat,
                    ) as int == canonical_code(counts, q) ==> self.fast@[c] != 255,
                forall|c: int|
                    0 <= c < 512 && #[trigger] self.fast@[c] != 255 ==> {
                        let f = self.fast@[c] as int;
                        &&& f < n
                        &&& code_length(counts, f) <= 9
                        &&& c / pow2((9 - code_length(counts, f)) as nat) as int == canonical_code(
                            counts,
                            f,
                        )
                    },
            decreases k - i,
        {
            let s = self.size[i] as usize;
            if s <= FAST_BITS && i < 255 {
                proof {
                    lemma_canonical_code_bounds(counts, i as int);
                    lemma_pow2_pos((9 - s) as nat);
                    lemma_pow2_adds(s as nat, (9 - s) as nat);
                    lemma2_to64();
                    vstd::arithmetic::mul::lemma_mul_inequality(
                        self.code@[i as int] + 1,
                        pow2(s as nat) as int,
                        pow2((9 - s) as nat) as int,
                    );
                    vstd::arithmetic::mul::lemma_mul_is_distributive_add_other_way(
                        pow2((9 - s) as nat) as int,
                        self.code@[i as int] as int,
                        1,
                    );
                    assert((self.code@[i as int] + 1) * pow2((9 - s) as nat) <= 512);
                    assert(self.code@[i as int] * pow2((9 - s) as nat) + pow2((9 - s) as nat) <= 512);
                    vstd::bits::lemma_usize_shl_is_mul(self.code@[i as int] as usize, (9 - s) as usize);
                    vstd::bits::lemma_usize_shl_is_mul(1, (9 - s) as usize);
                }
                let c = (self.code[i] as usize) << (FAST_BITS - s);
                let m: usize = 1usize << (FAST_BITS - s);
                let mut j: usize = 0;
                while j < m
                    invariant
                        counts == count@,
                        valid_counts(counts),
                        n == total_symbols(counts),
                        i < n,
                        i < 255,
                        s == code_length(counts, i as int),
                        1 <= s <= 9,
                        m == pow2((9 - s) as nat),
                        c == self.code@[i as int] * m,
                        c + m <= 512,
                        self.code@[i as int] == canonical_code(counts, i as int),
                        j <= m,
                        self.values == old(self).values,
                        self.counts == old(self).counts,
                        self.fast_ac is None,
                        self.delta@.len() == 17,
                        self.maxcode@.len() == 18,
                        self.maxcode@[16] == 0xffff_ffffu32,
                        forall|l: int|
                            1 <= l <= 16 ==> #[trigger] self.delta@[l] == first_index(counts, l) - first_code(
                                counts,
                                l,
                            ),
                        forall|l: int|
                            1 <= l < 16 ==> #[trigger] self.maxcode@[l] == next_code(counts, l) * pow2(
                                (16 - l) as nat,
                            ),
                        self.counts@ == counts,
                        self.values@.len() == n,
                        self.size@.len() == 257,
                        self.code@.len() == 256,
                        forall|m: int| 0 <= m < n ==> #[trigger] self.size@[m] == code_length(counts, m),
                        forall|m: int| 0 <= m < n ==> #[trigger] self.code@[m] == canonical_code(counts, m),
                        self.size@[n] == 0,
                        forall|c2: int, q: int|
                            #![trigger self.fast@[c2], canonical_code(counts, q)]
                            0 <= c2 < 512 && 0 <= q < i && q < 255 && code_length(counts, q) <= 9 && c2
                                / pow2((9 - code_length(counts, q)) as nat) as int == canonical_code(
                                counts,
                                q,
                            ) ==> self.fast@[c2] != 255,
                        forall|c2: int| c <= c2 < c + j ==> #[trigger] self.fast@[c2] != 255,
                        self.fast@.len() == 512,
                        forall|c2: int|
                            0 <= c2 < 512 && #[trigger] self.fast@[c2] != 255 ==> {
                                let f = self.fast@[c2] as int;
                                &&& f < n
                                &&& code_length(counts, f) <= 9
                                &&& c2 / pow2((9 - code_length(counts, f)) as nat) as int
                                    == canonical_code(counts, f)
                            },
                    decreases m - j,
                {
                    proof {
                        lemma_div_shifted(self.code@[i as int] as int, m as int, j as int);
                        vstd::arithmetic::mul::lemma_mul_is_commutative(
                            self.code@[i as int] as int,
                            m as int,
                        );
                    }
                    self.fast.set(c + j, i as u8);
                    j += 1;
                }
                proof {
                    assert forall|c2: int|
                        0 <= c2 < 512 && c2 / m as int == canonical_code(counts, i as int) implies #[trigger] self.fast@[c2]
                        != 255 by {
                        vstd::arithmetic::div_mod::lemma_fundamental_div_mod(c2, m as int);
                        vstd::arithmetic::mul::lemma_mul_is_commutative(
                            self.code@[i as int] as int,
                            m as int,
                        );
                    }
                }
            }
            i += 1;
        }
    }
}

/// The fast AC entry for window `i`, whose leading code is that of a symbol
/// `rs` with code length `len` (`fast` is 255 when no short code starts `i`).
fn fast_ac_entry(fast: u8, rs: u8, len: u8, i: usize) -> (r: i16)
    requires
        i < 512,
        len <= 16,
    ensures
        r == spec_fast_ac_entry(fast, rs, len as int, i as int),
{
    if fast == 255 {
        return 0;
    }
    let run = ((rs >> 4) & 15) as i32;
    let magnitude_category = (rs & 15) as i32;
    let len = len as i32;
    assert((rs >> 4) & 15 == rs / 16 && rs & 15 == rs % 16) by (bit_vector);
    if magnitude_category != 0 && len + magnitude_category <= FAST_BITS as i32 {
        // magnitude code, followed by receive_extend code
        let ls = len as u32;
        let ms = (9 - magnitude_category) as u32;
        proof {
            lemma2_to64();
            lemma_pow2_pos(ls as nat);
            lemma_pow2_strictly_increases(ls as nat, 10);
            lemma2_to64_rest();
            vstd::arithmetic::mul::lemma_mul_strict_inequality(
                i as int,
                512,
                pow2(ls as nat) as int,
            );
            assert(512 * pow2(ls as nat) <= 512 * 1024) by {
                vstd::arithmetic::mul::lemma_mul_inequality(pow2(ls as nat) as int, 1024, 512);
            }
            vstd::bits::lemma_u32_shl_is_mul(i as u32, ls);
        }
        let shifted: u32 = (i as u32) << ls;
        proof {
            vstd::bits::lemma_u32_low_bits_mask_is_mod(shifted, 9);
            assert(vstd::bits::low_bits_mask(9) == 511) by {
                vstd::bits::lemma_low_bits_mask_values();
            }
        }
        let masked: u32 = shifted & 511;
        proof {
            vstd::bits::lemma_u32_shr_is_div(masked, ms);
        }
        let raw: u32 = masked >> ms;
        proof {
            lemma_pow2_pos(ms as nat);
            vstd::arithmetic::div_mod::lemma_div_is_ordered(masked as int, 512, pow2(ms as nat) as int);
            lemma_pow2_pos((magnitude_category - 1) as nat);
            lemma_pow2_strictly_increases((magnitude_category - 1) as nat, 16);
            lemma_pow2_strictly_increases(magnitude_category as nat, 16);
            vstd::bits::lemma_u32_shl_is_mul(1, (magnitude_category - 1) as u32);
            vstd::bits::lemma_u32_shl_is_mul(1, magnitude_category as u32);
        }
        let mut k = raw as i32;
        let m = (1u32 << ((magnitude_category - 1) as u32)) as i32;
        if k < m {
            let full = (1u32 << (magnitude_category as u32)) as i32;
            k = k + 1 - full;
        }
        // if the result is small enough fit in the fast_ac table
        if k >= -128 && k <= 127 {
            return ((k * 256) + (run * 16) + (len + magnitude_category)) as i16;
        }
    }
    0
}

impl HuffmanTable {
    /// Build a table for small AC coefficients which decodes both the symbol
    /// and the value it announces (the equivalent of `receive_extend`).
    fn build_fast_ac(&mut self)
        requires
            old(self).wf(),
        ensures
            final(self).wf(),
            final(self).fast_ac is Some,
            final(self).counts == old(self).counts,
            final(self).values == old(self).values,
            final(self).fast == old(self).fast,
            final(self).size == old(self).size,
    {
        let mut fast_ac = vec![0i16; 512];
        let mut i: usize = 0;
        while i < 512
            invariant
                self.wf(),
                fast_ac@.len() == 512,
                i <= 512,
                forall|j: int|
                    0 <= j < i ==> #[trigger] fast_ac@[j] == spec_fast_ac_entry(
                        self.fast@[j],
                        if self.fast@[j] != 255 {
                            self.values@[self.fast@[j] as int]
                        } else {
                            0u8
                        },
                        if self.fast@[j] != 255 {
                            self.size@[self.fast@[j] as int] as int
                        } else {
                            0
                        },
                        j,
                    ),
            decreases 512 - i,
        {
            let fast = self.fast[i];
            let (rs, len) = if fast != 255 {
                (self.values[fast as usize], self.size[fast as usize])
            } else {
                (0u8, 0u8)
            };
            proof {
                if fast != 255 {
                    lemma_canonical_code_bounds(self.counts@, fast as int);
                }
            }
            fast_ac.set(i, fast_ac_entry(fast, rs, len, i));
            i += 1;
        }
        self.fast_ac = Some(fast_ac);
    }
}

/// Total number of codes counted.
fn symbol_total(codes: &[u8; 16]) -> (n: usize)
    requires
        valid_counts(codes@),
    ensures
        n == total_symbols(codes@),
{
    let mut n: usize = 0;
    let mut j: usize = 1;
    while j <= 16
        invariant
            1 <= j <= 17,
            codes@.len() == 16,
            n == first_index(codes@, j as int),
            n <= 256 * (j - 1),
        decreases 17 - j,
    {
        n = n + codes[j - 1] as usize;
        j += 1;
    }
    n
}

} // verus!
