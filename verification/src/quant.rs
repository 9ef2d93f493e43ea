//! Quantization and coefficient coding for the image codec: quality-scaled
//! quantization tables, zigzag linearization of 8x8 blocks, and run-length
//! coding of the AC coefficients.
//!
//! Tables hold exact integer values: every entry is `floor(base * scale / 100)`
//! clamped to a minimum of 1, where `scale` is the rational `5000 / quality`
//! below quality 50 and `200 - 2 * quality` from 50 up.

use vstd::prelude::*;
use vstd::arithmetic::div_mod::lemma_div_is_ordered;
use vstd::arithmetic::div_mod::lemma_div_is_ordered_by_denominator;
use vstd::arithmetic::div_mod::lemma_fundamental_div_mod;
use vstd::arithmetic::mul::lemma_mul_inequality;

verus! {

/// Classical luminance base quantization table (Y channel).
pub const LUMINANCE_TABLE: [[u32; 8]; 8] = [
    [16, 11, 10, 16, 24, 40, 51, 61],
    [12, 12, 14, 19, 26, 58, 60, 55],
    [14, 13, 16, 24, 40, 57, 69, 56],
    [14, 17, 22, 29, 51, 87, 80, 62],
    [18, 22, 37, 56, 68, 109, 103, 77],
    [24, 35, 55, 64, 81, 104, 113, 92],
    [49, 64, 78, 87, 103, 121, 120, 101],
    [72, 92, 95, 98, 112, 100, 103, 99],
];

/// Classical chrominance base quantization table (Co/Cg channels).
pub const CHROMINANCE_TABLE: [[u32; 8]; 8] = [
    [17, 18, 24, 47, 99, 99, 99, 99],
    [18, 21, 26, 66, 99, 99, 99, 99],
    [24, 26, 56, 99, 99, 99, 99, 99],
    [47, 66, 99, 99, 99, 99, 99, 99],
    [99, 99, 99, 99, 99, 99, 99, 99],
    [99, 99, 99, 99, 99, 99, 99, 99],
    [99, 99, 99, 99, 99, 99, 99, 99],
    [99, 99, 99, 99, 99, 99, 99, 99],
];

/// Zigzag scan order: position `k` of the scan reads block cell
/// `(ZIGZAG_ORDER[k].0, ZIGZAG_ORDER[k].1)`.
pub const ZIGZAG_ORDER: [(usize, usize); 64] = [
    (0, 0), (0, 1), (1, 0), (2, 0), (1, 1), (0, 2), (0, 3), (1, 2),
    (2, 1), (3, 0), (4, 0), (3, 1), (2, 2), (1, 3), (0, 4), (0, 5),
    (1, 4), (2, 3), (3, 2), (4, 1), (5, 0), (6, 0), (5, 1), (4, 2),
    (3, 3), (2, 4), (1, 5), (0, 6), (0, 7), (1, 6), (2, 5), (3, 4),
    (4, 3), (5, 2), (6, 1), (7, 0), (7, 1), (6, 2), (5, 3), (4, 4),
    (3, 5), (2, 6), (1, 7), (2, 7), (3, 6), (4, 5), (5, 4), (6, 3),
    (7, 2), (7, 3), (6, 4), (5, 5), (4, 6), (3, 7), (4, 7), (5, 6),
    (6, 5), (7, 4), (7, 5), (6, 6), (5, 7), (6, 7), (7, 6), (7, 7),
];

/// Inverse of the zigzag scan: block cell `(i, j)` sits at scan position
/// `ZIGZAG_POS[i][j]`.
pub const ZIGZAG_POS: [[usize; 8]; 8] = [
    [0, 1, 5, 6, 14, 15, 27, 28],
    [2, 4, 7, 13, 16, 26, 29, 42],
    [3, 8, 12, 17, 25, 30, 41, 43],
    [9, 11, 18, 24, 31, 40, 44, 53],
    [10, 19, 23, 32, 39, 45, 52, 54],
    [20, 22, 33, 38, 46, 51, 55, 60],
    [21, 34, 37, 47, 50, 56, 59, 61],
    [35, 36, 48, 49, 57, 58, 62, 63],
];

/// Row of the block cell read at zigzag position `k`.
pub open spec fn zz_i(k: int) -> int {
    (ZIGZAG_ORDER@[k].0) as int
}

/// Column of the block cell read at zigzag position `k`.
pub open spec fn zz_j(k: int) -> int {
    (ZIGZAG_ORDER@[k].1) as int
}

/// Numerator of the exact quality scale.
pub open spec fn scale_numer(quality: u8) -> int {
    if quality < 50 {
        5000
    } else {
        100 * (200 - 2 * (quality as int))
    }
}

/// Denominator of the exact quality scale.
pub open spec fn scale_denom(quality: u8) -> int {
    if quality < 50 {
        quality as int
    } else {
        100
    }
}

/// One scaled quantization table entry: `floor(base * scale / 100)`, never
/// below 1.
pub open spec fn quant_entry(base: int, quality: u8) -> int
    recommends
        1 <= quality <= 100,
{
    let scaled = base * scale_numer(quality) / (100 * scale_denom(quality));
    if scaled < 1 {
        1
    } else {
        scaled
    }
}

/// The base table selected for a channel kind.
pub open spec fn base_table(is_luminance: bool) -> Seq<[u32; 8]> {
    if is_luminance {
        LUMINANCE_TABLE@
    } else {
        CHROMINANCE_TABLE@
    }
}

/// A sequence of `n` zero coefficients.
pub open spec fn zeros(n: nat) -> Seq<i16> {
    Seq::new(n, |i: int| 0i16)
}

/// Run-length encoding of a coefficient sequence, carrying the count of
/// pending zeros.  A pair `(n, v)` with `v != 0` stands for `n` zeros followed
/// by `v`; the pair `(0, 0)` marks a trailing run of zeros; a pending run that
/// reaches 255 is flushed as the escape pair `(255, 0)`.
pub open spec fn rle_encode_aux(s: Seq<i16>, zc: nat) -> Seq<(u8, i16)>
    recommends
        zc <= 254,
    decreases s.len(),
{
    if s.len() == 0 {
        if zc > 0 {
            seq![(0u8, 0i16)]
        } else {
            Seq::empty()
        }
    } else if s[0] == 0i16 {
        if zc + 1 == 255 {
            seq![(255u8, 0i16)] + rle_encode_aux(s.drop_first(), 0)
        } else {
            rle_encode_aux(s.drop_first(), zc + 1)
        }
    } else {
        seq![((zc as u8), s[0])] + rle_encode_aux(s.drop_first(), 0)
    }
}

/// Run-length encoding of a coefficient sequence.
pub open spec fn rle_encode(s: Seq<i16>) -> Seq<(u8, i16)> {
    rle_encode_aux(s, 0)
}

/// Expansion of a run-length pair list: each pair `(n, v)` yields `n` zeros,
/// followed by `v` unless the pair is the end-of-block marker `(0, 0)`.
pub open spec fn rle_decode_raw(r: Seq<(u8, i16)>) -> Seq<i16>
    decreases r.len(),
{
    if r.len() == 0 {
        Seq::empty()
    } else {
        let run = zeros(r[0].0 as nat);
        let lit: Seq<i16> = if r[0].0 == 0 && r[0].1 == 0i16 {
            Seq::empty()
        } else {
            seq![r[0].1]
        };
        run + lit + rle_decode_raw(r.drop_first())
    }
}

/// Pad with zeros to 64 entries, or cut down to 64.
pub open spec fn pad_to_64(s: Seq<i16>) -> Seq<i16> {
    if s.len() >= 64 {
        s.take(64)
    } else {
        s + zeros((64 - s.len()) as nat)
    }
}

/// Round `c / t` to the nearest integer, ties away from zero.
pub open spec fn round_div(c: int, t: int) -> int
    recommends
        1 <= t,
{
    if c >= 0 {
        (2 * c + t) / (2 * t)
    } else {
        -((2 * (-c) + t) / (2 * t))
    }
}

/// Clamp to the signed 16-bit range.
pub open spec fn clamp_i16(x: int) -> int {
    if x < -32768 {
        -32768
    } else if x > 32767 {
        32767
    } else {
        x
    }
}

/// Quantization, zigzag and run-length operations on 8x8 coefficient blocks.
pub struct Quantization;

impl Quantization {
    /// Build the quantization table for a quality level: each entry is the
    /// base entry scaled by the quality factor and clamped to a minimum of 1.
    pub fn create_quantization_table(quality: u8, is_luminance: bool) -> (table: [[u32; 8]; 8])
        requires
            1 <= quality <= 100,
        ensures
            forall|i: int, j: int|
                0 <= i < 8 && 0 <= j < 8 ==> table@[i]@[j] == quant_entry(
                    base_table(is_luminance)[i]@[j] as int,
                    quality,
                ),
            forall|i: int, j: int| 0 <= i < 8 && 0 <= j < 8 ==> 1 <= table@[i]@[j],
    {
        let base: [[u32; 8]; 8] = if is_luminance {
            LUMINANCE_TABLE
        } else {
            CHROMINANCE_TABLE
        };
        proof {
            lemma_base_tables_bounded();
        }
        let mut table: [[u32; 8]; 8] = [[0u32; 8]; 8];
        let mut i: usize = 0;
        while i < 8
            invariant
                i <= 8,
                forall|a: int, b: int|
                    0 <= a < i && 0 <= b < 8 ==> table@[a]@[b] == quant_entry(
                        base_table(is_luminance)[a]@[b] as int,
                        quality,
                    ),
                forall|a: int, b: int| 0 <= a < i && 0 <= b < 8 ==> 1 <= table@[a]@[b],
                base@ == base_table(is_luminance),
                forall|a: int, b: int| 0 <= a < 8 && 0 <= b < 8 ==> 1 <= #[trigger] base@[a]@[b]
                    <= 121,
                1 <= quality <= 100,
            decreases 8 - i,
        {
            let mut j: usize = 0;
            while j < 8
                invariant
                    i < 8,
                    j <= 8,
                    forall|a: int, b: int|
                        0 <= a < i && 0 <= b < 8 ==> table@[a]@[b] == quant_entry(
                            base_table(is_luminance)[a]@[b] as int,
                            quality,
                        ),
                    forall|a: int, b: int| 0 <= a < i && 0 <= b < 8 ==> 1 <= table@[a]@[b],
                    forall|b: int|
                        0 <= b < j ==> table@[i as int]@[b] == quant_entry(
                            base_table(is_luminance)[i as int]@[b] as int,
                            quality,
                        ),
                    forall|b: int| 0 <= b < j ==> 1 <= table@[i as int]@[b],
                    base@ == base_table(is_luminance),
                    forall|a: int, b: int|
                        0 <= a < 8 && 0 <= b < 8 ==> 1 <= #[trigger] base@[a]@[b] <= 121,
                    1 <= quality <= 100,
                decreases 8 - j,
            {
                let b: u64 = base[i][j] as u64;
                let scaled: u64 = if quality < 50 {
                    proof {
                        lemma_div_is_ordered_by_denominator(
                            b as int * 5000,
                            100,
                            100 * quality as int,
                        );
                        lemma_div_is_ordered(b as int * 5000, 605000, 100);
                    }
                    b * 5000 / (100 * quality as u64)
                } else {
                    let f: u64 = 100 * (200 - 2 * quality as u64);
                    assert(b * f <= 1210000) by (nonlinear_arith)
                        requires
                            b <= 121,
                            f <= 10000,
                    ;
                    proof {
                        lemma_div_is_ordered(b as int * f as int, 1210000, 10000);
                    }
                    b * f / (100 * 100)
                };
                let entry: u32 = if scaled < 1 {
                    1u32
                } else {
                    scaled as u32
                };
                table[i][j] = entry;
                j = j + 1;
            }
            i = i + 1;
        }
        table
    }

    /// Read an 8x8 block in zigzag order into a 64-entry vector.
    pub fn block_to_zigzag(block: &[[i16; 8]; 8]) -> (zigzag: Vec<i16>)
        ensures
            zigzag@.len() == 64,
            forall|k: int| 0 <= k < 64 ==> zigzag@[k] == block@[zz_i(k)]@[zz_j(k)],
    {
        proof {
            lemma_zigzag_order_in_range();
        }
        let mut zigzag: Vec<i16> = Vec::new();
        let mut k: usize = 0;
        while k < 64
            invariant
                k <= 64,
                zigzag@.len() == k,
                forall|m: int| 0 <= m < k ==> zigzag@[m] == block@[zz_i(m)]@[zz_j(m)],
                forall|m: int|
                    0 <= m < 64 ==> (#[trigger] ZIGZAG_ORDER@[m]).0 < 8 && ZIGZAG_ORDER@[m].1 < 8,
            decreases 64 - k,
        {
            let (i, j) = ZIGZAG_ORDER[k];
            zigzag.push(block[i][j]);
            k = k + 1;
        }
        zigzag
    }

    /// Scatter a zigzag-ordered vector back into an 8x8 block.  Positions past
    /// the end of the vector stay zero; entries past position 63 are ignored.
    pub fn zigzag_to_block(zigzag: &[i16]) -> (block: [[i16; 8]; 8])
        ensures
            forall|k: int|
                0 <= k < 64 && k < zigzag@.len() ==> block@[zz_i(k)]@[zz_j(k)] == zigzag@[k],
            forall|k: int|
                0 <= k < 64 && k >= zigzag@.len() ==> block@[zz_i(k)]@[zz_j(k)] == 0,
    {
        proof {
            lemma_zigzag_order_in_range();
            lemma_zigzag_order_injective();
        }
        let mut block: [[i16; 8]; 8] = [[0i16; 8]; 8];
        let n = zigzag.len();
        let mut k: usize = 0;
        while k < 64
            invariant
                k <= 64,
                n == zigzag@.len(),
                forall|m: int|
                    0 <= m < k && m < zigzag@.len() ==> block@[zz_i(m)]@[zz_j(m)] == zigzag@[m],
                forall|m: int|
                    0 <= m < 64 && (m >= k || m >= zigzag@.len()) ==> block@[zz_i(m)]@[zz_j(m)]
                        == 0,
                forall|m: int|
                    0 <= m < 64 ==> (#[trigger] ZIGZAG_ORDER@[m]).0 < 8 && ZIGZAG_ORDER@[m].1 < 8,
                forall|k1: int, k2: int|
                    0 <= k1 < 64 && 0 <= k2 < 64 && k1 != k2 ==> #[trigger] ZIGZAG_ORDER@[k1]
                        != #[trigger] ZIGZAG_ORDER@[k2],
            decreases 64 - k,
        {
            let (i, j) = ZIGZAG_ORDER[k];
            if k < n {
                block[i][j] = zigzag[k];
            }
            k = k + 1;
        }
        block
    }

    /// Run-length encode a zigzag-ordered coefficient vector.
    pub fn run_length_encode(zigzag: &[i16]) -> (rle: Vec<(u8, i16)>)
        ensures
            rle@ == rle_encode(zigzag@),
    {
        let mut rle: Vec<(u8, i16)> = Vec::new();
        let mut zero_count: u8 = 0;
        let n = zigzag.len();
        let mut idx: usize = 0;
        proof {
            assert(zigzag@.skip(0) =~= zigzag@);
            assert(rle@ + rle_encode_aux(zigzag@, 0) =~= rle_encode_aux(zigzag@, 0));
        }
        while idx < n
            invariant
                idx <= n,
                n == zigzag@.len(),
                zero_count <= 254,
                rle_encode(zigzag@) == rle@ + rle_encode_aux(
                    zigzag@.skip(idx as int),
                    zero_count as nat,
                ),
            decreases n - idx,
        {
            proof {
                assert(zigzag@.skip(idx as int).drop_first() =~= zigzag@.skip(idx as int + 1));
                assert(zigzag@.skip(idx as int)[0] == zigzag@[idx as int]);
            }
            let value = zigzag[idx];
            if value == 0 {
                zero_count = zero_count + 1;
                if zero_count == 255 {
                    rle.push((255u8, 0i16));
                    zero_count = 0;
                }
            } else {
                rle.push((zero_count, value));
                zero_count = 0;
            }
            idx = idx + 1;
        }
        proof {
            assert(zigzag@.skip(n as int) =~= Seq::<i16>::empty());
        }
        if zero_count > 0 {
            rle.push((0u8, 0i16));
        }
        rle
    }

    /// Expand a run-length pair list back to exactly 64 coefficients, padding
    /// a shortfall with zeros.
    pub fn run_length_decode(rle: &[(u8, i16)]) -> (out: Vec<i16>)
        ensures
            out@ == pad_to_64(rle_decode_raw(rle@)),
            out@.len() == 64,
    {
        let mut decoded: Vec<i16> = Vec::new();
        let n = rle.len();
        let mut idx: usize = 0;
        while idx < n
            invariant
                idx <= n,
                n == rle@.len(),
                decoded@ == rle_decode_raw(rle@.take(idx as int)),
            decreases n - idx,
        {
            let (zrun, value) = rle[idx];
            let mut z: u8 = 0;
            while z < zrun
                invariant
                    z <= zrun,
                    decoded@ == rle_decode_raw(rle@.take(idx as int)) + zeros(z as nat),
                    idx < n,
                    n == rle@.len(),
                decreases zrun - z,
            {
                proof {
                    assert(rle_decode_raw(rle@.take(idx as int)) + zeros(z as nat) + seq![0i16]
                        =~= rle_decode_raw(rle@.take(idx as int)) + zeros(z as nat + 1));
                }
                decoded.push(0i16);
                z = z + 1;
            }
            if !(zrun == 0 && value == 0) {
                decoded.push(value);
            }
            proof {
                assert(zeros(0) =~= Seq::<i16>::empty());
                lemma_rle_decode_raw_take_step(rle@, idx as int);
                assert(decoded@ =~= rle_decode_raw(rle@.take(idx as int + 1)));
            }
            idx = idx + 1;
        }
        proof {
            assert(rle@.take(n as int) =~= rle@);
        }
        let raw_len = decoded.len();
        let mut m = decoded.len();
        while m < 64
            invariant
                m == decoded@.len(),
                raw_len == rle_decode_raw(rle@).len(),
                raw_len <= m,
                decoded@ == pad_to_64_partial(rle_decode_raw(rle@), m as nat),
            decreases 64 - m,
        {
            proof {
                assert(pad_to_64_partial(rle_decode_raw(rle@), m as nat) + seq![0i16]
                    =~= pad_to_64_partial(rle_decode_raw(rle@), m as nat + 1));
            }
            decoded.push(0i16);
            m = m + 1;
        }
        decoded.truncate(64);
        proof {
            let raw = rle_decode_raw(rle@);
            assert(pad_to_64_partial(raw, raw.len()) =~= raw);
            assert(decoded@ =~= pad_to_64(raw));
        }
        decoded
    }

    /// Quantize a block of transform coefficients: divide each by its table
    /// entry, rounding to nearest with ties away from zero, and clamp to the
    /// signed 16-bit range.
    pub fn quantize_block(
        dct_block: &[[i32; 8]; 8],
        quantization_table: &[[u32; 8]; 8],
    ) -> (q: [[i16; 8]; 8])
        requires
            forall|i: int, j: int|
                0 <= i < 8 && 0 <= j < 8 ==> 1 <= #[trigger] quantization_table@[i]@[j],
        ensures
            forall|i: int, j: int|
                0 <= i < 8 && 0 <= j < 8 ==> q@[i]@[j] == clamp_i16(
                    round_div(dct_block@[i]@[j] as int, quantization_table@[i]@[j] as int),
                ),
    {
        let mut q: [[i16; 8]; 8] = [[0i16; 8]; 8];
        let mut i: usize = 0;
        while i < 8
            invariant
                i <= 8,
                forall|a: int, b: int|
                    0 <= a < i && 0 <= b < 8 ==> q@[a]@[b] == clamp_i16(
                        round_div(dct_block@[a]@[b] as int, quantization_table@[a]@[b] as int),
                    ),
                forall|a: int, b: int|
                    0 <= a < 8 && 0 <= b < 8 ==> 1 <= #[trigger] quantization_table@[a]@[b],
            decreases 8 - i,
        {
            let mut j: usize = 0;
            while j < 8
                invariant
                    i < 8,
                    j <= 8,
                    forall|a: int, b: int|
                        0 <= a < i && 0 <= b < 8 ==> q@[a]@[b] == clamp_i16(
                            round_div(dct_block@[a]@[b] as int, quantization_table@[a]@[b] as int),
                        ),
                    forall|b: int|
                        0 <= b < j ==> q@[i as int]@[b] == clamp_i16(
                            round_div(
                                dct_block@[i as int]@[b] as int,
                                quantization_table@[i as int]@[b] as int,
                            ),
                        ),
                    forall|a: int, b: int|
                        0 <= a < 8 && 0 <= b < 8 ==> 1 <= #[trigger] quantization_table@[a]@[b],
                decreases 8 - j,
            {
                let c: i64 = dct_block[i][j] as i64;
                let t: i64 = quantization_table[i][j] as i64;
                let rounded: i64 = if c >= 0 {
                    (2 * c + t) / (2 * t)
                } else {
                    -((2 * (-c) + t) / (2 * t))
                };
                let clamped: i16 = if rounded < -32768 {
                    -32768i16
                } else if rounded > 32767 {
                    32767i16
                } else {
                    rounded as i16
                };
                q[i][j] = clamped;
                j = j + 1;
            }
            i = i + 1;
        }
        q
    }

    /// Undo quantization: multiply each quantized coefficient by its table
    /// entry.  Exact but for the rounding that quantization already applied.
    pub fn dequantize_block(
        quantized_block: &[[i16; 8]; 8],
        quantization_table: &[[u32; 8]; 8],
    ) -> (d: [[i64; 8]; 8])
        ensures
            forall|i: int, j: int|
                0 <= i < 8 && 0 <= j < 8 ==> d@[i]@[j] == quantized_block@[i]@[j] as int
                    * quantization_table@[i]@[j] as int,
    {
        let mut d: [[i64; 8]; 8] = [[0i64; 8]; 8];
        let mut i: usize = 0;
        while i < 8
            invariant
                i <= 8,
                forall|a: int, b: int|
                    0 <= a < i && 0 <= b < 8 ==> d@[a]@[b] == quantized_block@[a]@[b] as int
                        * quantization_table@[a]@[b] as int,
            decreases 8 - i,
        {
            let mut j: usize = 0;
            while j < 8
                invariant
                    i < 8,
                    j <= 8,
                    forall|a: int, b: int|
                        0 <= a < i && 0 <= b < 8 ==> d@[a]@[b] == quantized_block@[a]@[b] as int
                            * quantization_table@[a]@[b] as int,
                    forall|b: int|
                        0 <= b < j ==> d@[i as int]@[b] == quantized_block@[i as int]@[b] as int
                            * quantization_table@[i as int]@[b] as int,
                decreases 8 - j,
            {
                let qv: i64 = quantized_block[i][j] as i64;
                let tv: i64 = quantization_table[i][j] as i64;
                assert(-32768 * 0x1_0000_0000i64 <= qv * tv <= 32768 * 0x1_0000_0000i64)
                    by (nonlinear_arith)
                    requires
                        -32768 <= qv <= 32767,
                        0 <= tv <= 0xffff_ffffi64,
                ;
                d[i][j] = qv * tv;
                j = j + 1;
            }
            i = i + 1;
        }
        d
    }
}

/// Prefix of the zero padding applied after run-length expansion.
pub open spec fn pad_to_64_partial(s: Seq<i16>, m: nat) -> Seq<i16>
    recommends
        s.len() <= m,
{
    s + zeros((m - s.len()) as nat)
}

/// Both base tables hold entries between 1 and 121.
pub proof fn lemma_base_tables_bounded()
    ensures
        forall|i: int, j: int|
            0 <= i < 8 && 0 <= j < 8 ==> 1 <= #[trigger] LUMINANCE_TABLE@[i]@[j] <= 121,
        forall|i: int, j: int|
            0 <= i < 8 && 0 <= j < 8 ==> 1 <= #[trigger] CHROMINANCE_TABLE@[i]@[j] <= 121,
{
}

/// Every zigzag scan entry addresses a cell inside the 8x8 block.
pub proof fn lemma_zigzag_order_in_range()
    ensures
        forall|k: int|
            0 <= k < 64 ==> (#[trigger] ZIGZAG_ORDER@[k]).0 < 8 && ZIGZAG_ORDER@[k].1 < 8,
{
}

/// Distinct zigzag scan positions address distinct block cells.
#[verifier::rlimit(60)]
pub proof fn lemma_zigzag_order_injective()
    ensures
        forall|k1: int, k2: int|
            0 <= k1 < 64 && 0 <= k2 < 64 && k1 != k2 ==> #[trigger] ZIGZAG_ORDER@[k1]
                != #[trigger] ZIGZAG_ORDER@[k2],
{
}

/// The position table inverts the scan order: cell `(i, j)` is read at scan
/// position `ZIGZAG_POS[i][j]`.
#[verifier::rlimit(60)]
pub proof fn lemma_zigzag_pos_inverse()
    ensures
        forall|i: int, j: int|
            0 <= i < 8 && 0 <= j < 8 ==> 0 <= #[trigger] ZIGZAG_POS@[i]@[j] < 64,
        forall|i: int, j: int|
            0 <= i < 8 && 0 <= j < 8 ==> zz_i(#[trigger] ZIGZAG_POS@[i]@[j] as int) == i && zz_j(
                ZIGZAG_POS@[i]@[j] as int,
            ) == j,
{
}

/// The zigzag scan and its inverse compose to the identity on 8x8 blocks:
/// scattering the scan of a block restores every cell.
pub proof fn lemma_zigzag_round_trip(b: Seq<[i16; 8]>, z: Seq<i16>, r: Seq<[i16; 8]>)
    requires
        b.len() == 8,
        r.len() == 8,
        z.len() == 64,
        forall|k: int| 0 <= k < 64 ==> z[k] == b[zz_i(k)]@[zz_j(k)],
        forall|k: int| 0 <= k < 64 ==> r[zz_i(k)]@[zz_j(k)] == z[k],
    ensures
        forall|i: int, j: int| 0 <= i < 8 && 0 <= j < 8 ==> r[i]@[j] == b[i]@[j],
{
    lemma_zigzag_pos_inverse();
    assert forall|i: int, j: int| 0 <= i < 8 && 0 <= j < 8 implies r[i]@[j] == b[i]@[j] by {
        let k = ZIGZAG_POS@[i]@[j] as int;
        assert(0 <= k < 64);
        assert(zz_i(k) == i && zz_j(k) == j);
        assert(r[i]@[j] == z[k]);
        assert(z[k] == b[i]@[j]);
    }
}

/// Expanding one more run-length pair appends that pair's expansion.
pub proof fn lemma_rle_decode_raw_take_step(r: Seq<(u8, i16)>, idx: int)
    requires
        0 <= idx < r.len(),
    ensures
        rle_decode_raw(r.take(idx + 1)) == rle_decode_raw(r.take(idx)) + zeros(r[idx].0 as nat) + (
        if r[idx].0 == 0 && r[idx].1 == 0i16 {
            Seq::<i16>::empty()
        } else {
            seq![r[idx].1]
        }),
{
    lemma_rle_decode_raw_append(r.take(idx), seq![r[idx]]);
    assert(r.take(idx + 1) =~= r.take(idx) + seq![r[idx]]);
    let single = seq![r[idx]];
    assert(single.drop_first() =~= Seq::<(u8, i16)>::empty());
    assert(rle_decode_raw(single.drop_first()) == Seq::<i16>::empty());
    assert(single[0] == r[idx]);
    assert(rle_decode_raw(single) =~= zeros(r[idx].0 as nat) + (if r[idx].0 == 0 && r[idx].1
        == 0i16 {
        Seq::<i16>::empty()
    } else {
        seq![r[idx].1]
    }));
}

/// Run-length expansion distributes over concatenation of pair lists.
pub proof fn lemma_rle_decode_raw_append(r1: Seq<(u8, i16)>, r2: Seq<(u8, i16)>)
    ensures
        rle_decode_raw(r1 + r2) == rle_decode_raw(r1) + rle_decode_raw(r2),
    decreases r1.len(),
{
    if r1.len() == 0 {
        assert(r1 + r2 =~= r2);
        assert(rle_decode_raw(r1) + rle_decode_raw(r2) =~= rle_decode_raw(r2));
    } else {
        assert((r1 + r2).drop_first() =~= r1.drop_first() + r2);
        lemma_rle_decode_raw_append(r1.drop_first(), r2);
        assert((r1 + r2)[0] == r1[0]);
        assert(rle_decode_raw(r1 + r2) =~= rle_decode_raw(r1) + rle_decode_raw(r2));
    }
}

/// Core of the run-length round trip: expanding the encoding of `s` with `zc`
/// pending zeros yields `zc` zeros followed by `s`, short of a trailing run of
/// zeros that the end-of-block marker elides.
pub proof fn lemma_rle_aux_round_trip(s: Seq<i16>, zc: nat)
    requires
        zc + s.len() < 255,
    ensures
        rle_decode_raw(rle_encode_aux(s, zc)).len() <= zc + s.len(),
        zeros(zc) + s == rle_decode_raw(rle_encode_aux(s, zc)) + zeros(
            (zc + s.len() - rle_decode_raw(rle_encode_aux(s, zc)).len()) as nat,
        ),
    decreases s.len(),
{
    let d = rle_decode_raw(rle_encode_aux(s, zc));
    if s.len() == 0 {
        if zc > 0 {
            let enc = rle_encode_aux(s, zc);
            assert(enc =~= seq![(0u8, 0i16)]);
            assert(enc.drop_first() =~= Seq::<(u8, i16)>::empty());
            assert(rle_decode_raw(enc.drop_first()) == Seq::<i16>::empty());
            assert(enc[0] == (0u8, 0i16));
            assert(zeros(0) =~= Seq::<i16>::empty());
            assert(d =~= Seq::<i16>::empty());
            assert(zeros(zc) + s =~= d + zeros(zc));
        } else {
            assert(d =~= Seq::<i16>::empty());
            assert(zeros(zc) + s =~= d + zeros(0));
        }
    } else if s[0] == 0i16 {
        lemma_rle_aux_round_trip(s.drop_first(), zc + 1);
        assert(rle_encode_aux(s, zc) == rle_encode_aux(s.drop_first(), zc + 1));
        assert(zeros(zc) + s =~= zeros(zc + 1) + s.drop_first());
        assert(zeros(zc) + s == d + zeros((zc + s.len() - d.len()) as nat));
    } else {
        lemma_rle_aux_round_trip(s.drop_first(), 0);
        let rest = s.drop_first();
        let d2 = rle_decode_raw(rle_encode_aux(rest, 0));
        let head = seq![((zc as u8), s[0])];
        assert(rle_encode_aux(s, zc) == head + rle_encode_aux(rest, 0));
        lemma_rle_decode_raw_append(head, rle_encode_aux(rest, 0));
        assert(head.drop_first() =~= Seq::<(u8, i16)>::empty());
        assert(rle_decode_raw(head.drop_first()) == Seq::<i16>::empty());
        assert(head[0] == ((zc as u8), s[0]));
        assert((zc as u8) as nat == zc);
        assert(rle_decode_raw(head) =~= zeros(zc) + seq![s[0]]);
        assert(d =~= zeros(zc) + seq![s[0]] + d2);
        assert(zeros(zc) + s =~= zeros(zc) + seq![s[0]] + rest);
        assert(rest == d2 + zeros((rest.len() - d2.len()) as nat));
        assert(zeros(zc) + s =~= d + zeros((zc + s.len() - d.len()) as nat));
    }
}

/// Run-length coding round trip: decoding the encoding of any 64-coefficient
/// sequence, padded back out to 64 entries, restores the sequence exactly.
pub proof fn lemma_run_length_round_trip(s: Seq<i16>)
    requires
        s.len() == 64,
    ensures
        pad_to_64(rle_decode_raw(rle_encode(s))) == s,
{
    lemma_rle_aux_round_trip(s, 0);
    let d = rle_decode_raw(rle_encode(s));
    assert(zeros(0) + s =~= s);
    assert(s == d + zeros((64 - d.len()) as nat));
    if d.len() >= 64 {
        assert(d + zeros((64 - d.len()) as nat) =~= d);
        assert(pad_to_64(d) =~= d.take(64));
        assert(pad_to_64(d) =~= s);
    } else {
        assert(pad_to_64(d) =~= d + zeros((64 - d.len()) as nat));
    }
}

/// Dequantization undoes quantization to within half a quantization step, and
/// a coefficient within the representable range is never clamped.
pub proof fn lemma_quantize_dequantize_error(c: int, t: int)
    requires
        1 <= t,
        -32767 * t <= c <= 32767 * t,
    ensures
        -32768 <= round_div(c, t) <= 32767,
        clamp_i16(round_div(c, t)) == round_div(c, t),
        -t <= 2 * (round_div(c, t) * t - c) <= t,
{
    if c >= 0 {
        let r = (2 * c + t) / (2 * t);
        lemma_fundamental_div_mod(2 * c + t, 2 * t);
        let m = (2 * c + t) % (2 * t);
        assert(2 * c + t == 2 * t * r + m);
        assert(0 <= m < 2 * t);
        assert(2 * (r * t - c) == t - m) by (nonlinear_arith)
            requires
                2 * c + t == 2 * t * r + m,
        ;
        assert(r <= 32767) by (nonlinear_arith)
            requires
                2 * c + t == 2 * t * r + m,
                0 <= m,
                c <= 32767 * t,
                1 <= t,
        ;
        assert(r >= 0) by (nonlinear_arith)
            requires
                2 * c + t == 2 * t * r + m,
                m < 2 * t,
                c >= 0,
                1 <= t,
        ;
    } else {
        let r0 = (2 * (-c) + t) / (2 * t);
        lemma_fundamental_div_mod(2 * (-c) + t, 2 * t);
        let m = (2 * (-c) + t) % (2 * t);
        assert(2 * (-c) + t == 2 * t * r0 + m);
        assert(0 <= m < 2 * t);
        assert(2 * ((-r0) * t - c) == m - t) by (nonlinear_arith)
            requires
                2 * (-c) + t == 2 * t * r0 + m,
        ;
        assert(r0 <= 32767) by (nonlinear_arith)
            requires
                2 * (-c) + t == 2 * t * r0 + m,
                0 <= m,
                -c <= 32767 * t,
                1 <= t,
        ;
        assert(r0 >= 0) by (nonlinear_arith)
            requires
                2 * (-c) + t == 2 * t * r0 + m,
                m < 2 * t,
                -c > 0,
                1 <= t,
        ;
    }
}

/// Raising the quality never coarsens a quantization table entry.
pub proof fn lemma_quant_entry_monotonic(base: int, q1: u8, q2: u8)
    requires
        0 <= base,
        1 <= q2 <= q1 <= 100,
    ensures
        quant_entry(base, q1) <= quant_entry(base, q2),
{
    if q1 < 50 {
        lemma_div_is_ordered_by_denominator(base * 5000, 100 * q2 as int, 100 * q1 as int);
    } else if q2 >= 50 {
        lemma_mul_inequality(100 * (200 - 2 * (q1 as int)), 100 * (200 - 2 * (q2 as int)), base);
        assert(base * (100 * (200 - 2 * (q1 as int))) == (100 * (200 - 2 * (q1 as int))) * base)
            by (nonlinear_arith);
        assert(base * (100 * (200 - 2 * (q2 as int))) == (100 * (200 - 2 * (q2 as int))) * base)
            by (nonlinear_arith);
        lemma_div_is_ordered(
            base * (100 * (200 - 2 * (q1 as int))),
            base * (100 * (200 - 2 * (q2 as int))),
            100 * 100int,
        );
    } else {
        lemma_mul_inequality(100 * (200 - 2 * (q1 as int)), 100 * 100int, base);
        assert(base * (100 * (200 - 2 * (q1 as int))) == (100 * (200 - 2 * (q1 as int))) * base)
            by (nonlinear_arith);
        assert(base * (100 * 100) == (100 * 100) * base) by (nonlinear_arith);
        lemma_div_is_ordered(base * (100 * (200 - 2 * (q1 as int))), base * (100 * 100), 100 * 100int);
        vstd::arithmetic::div_mod::lemma_div_multiples_vanish(base, 100 * 100int);
        lemma_mul_inequality(100 * q2 as int, 5000, base);
        assert(base * (100 * q2 as int) == (100 * q2 as int) * base) by (nonlinear_arith);
        assert(base * 5000 == 5000 * base) by (nonlinear_arith);
        lemma_div_is_ordered(base * (100 * q2 as int), base * 5000, 100 * q2 as int);
        vstd::arithmetic::div_mod::lemma_div_multiples_vanish(base, 100 * q2 as int);
    }
}

/// Quality monotonicity for whole tables: every entry of the table for the
/// higher quality is at most the corresponding entry for the lower quality.
pub proof fn lemma_quantization_table_monotonic(q1: u8, q2: u8, is_luminance: bool)
    requires
        1 <= q2 <= q1 <= 100,
    ensures
        forall|i: int, j: int|
            0 <= i < 8 && 0 <= j < 8 ==> quant_entry(
                (#[trigger] base_table(is_luminance)[i]@[j]) as int,
                q1,
            ) <= quant_entry(base_table(is_luminance)[i]@[j] as int, q2),
{
    assert forall|i: int, j: int| 0 <= i < 8 && 0 <= j < 8 implies quant_entry(
        (#[trigger] base_table(is_luminance)[i]@[j]) as int,
        q1,
    ) <= quant_entry(base_table(is_luminance)[i]@[j] as int, q2) by {
        lemma_quant_entry_monotonic(base_table(is_luminance)[i]@[j] as int, q1, q2);
    }
}


/// A run-length encoding never holds more pairs than coefficients, plus one
/// end-of-block marker.
pub proof fn lemma_rle_len_bound(s: Seq<i16>)
    ensures
        rle_encode(s).len() <= s.len() + 1,
{
    lemma_rle_aux_len_bound(s, 0);
}

/// Induction core of the length bound.
proof fn lemma_rle_aux_len_bound(s: Seq<i16>, zc: nat)
    ensures
        rle_encode_aux(s, zc).len() <= s.len() + 1,
    decreases s.len(),
{
    if s.len() == 0 {
    } else if s[0] == 0i16 {
        if zc + 1 == 255 {
            lemma_rle_aux_len_bound(s.drop_first(), 0);
        } else {
            lemma_rle_aux_len_bound(s.drop_first(), zc + 1);
        }
    } else {
        lemma_rle_aux_len_bound(s.drop_first(), 0);
    }
}

} // verus!
