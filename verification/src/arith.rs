//! High-precision arithmetic coding engine: a 62-bit encoder and decoder
//! driven by a static two-pass frequency model.
//!
//! The coder keeps `low` and `high` bounds inside `[0, 2^62 - 1]`.  Each
//! symbol narrows the bounds proportionally to its cumulative interval; the
//! renormalization steps then emit or consume bits until the interval width is
//! back above a quarter of the precision range.  The contracts state the
//! narrowing and renormalization as transition functions on the coder state.

use vstd::prelude::*;
use crate::error::CodecError;

verus! {

/// Largest value the coder bounds can take: `2^62 - 1`.
pub const MAX_VALUE: u64 = 0x3fff_ffff_ffff_ffff;

/// One quarter of the precision range: `2^60`.
pub const QUARTER: u64 = 0x1000_0000_0000_0000;

/// Half of the precision range: `2^61`.
pub const HALF: u64 = 0x2000_0000_0000_0000;

/// Three quarters of the precision range: `3 * 2^60`.
pub const THREE_QUARTERS: u64 = 0x3000_0000_0000_0000;

/// Number of coder precision bits.
pub const PRECISION: u64 = 62;

/// Lower bound after narrowing: `low + range * symbol_low / total`.
pub open spec fn narrow_low(low: int, high: int, symbol_low: int, total: int) -> int
    recommends
        1 <= total,
{
    low + (high - low + 1) * symbol_low / total
}

/// Upper bound after narrowing: `low + range * symbol_high / total - 1`.
pub open spec fn narrow_high(low: int, high: int, symbol_high: int, total: int) -> int
    recommends
        1 <= total,
{
    low + (high - low + 1) * symbol_high / total - 1
}

/// Top-bit renormalization: while the bounds agree on their top bit, emit it
/// (resetting the pending-bit count) and shift both bounds left by one.
pub open spec fn renorm_top(low: int, high: int, pending: int) -> (int, int, int)
    decreases MAX_VALUE - (high - low)
        when 0 <= low <= high <= MAX_VALUE
{
    if high < HALF {
        renorm_top(2 * low, 2 * high + 1, 0)
    } else if low >= HALF {
        renorm_top(2 * (low - HALF), 2 * (high - HALF) + 1, 0)
    } else {
        (low, high, pending)
    }
}

/// Underflow renormalization: while the bounds straddle the midpoint within
/// the middle half, defer one opposite-polarity bit and expand around the
/// midpoint.
pub open spec fn renorm_middle(low: int, high: int, pending: int) -> (int, int, int)
    decreases MAX_VALUE - (high - low)
        when 0 <= low <= high <= MAX_VALUE
{
    if low >= QUARTER && high < THREE_QUARTERS {
        renorm_middle(2 * (low - QUARTER), 2 * (high - QUARTER) + 1, pending + 1)
    } else {
        (low, high, pending)
    }
}

/// Top-bit renormalization with its bit output: each step emits the agreed
/// top bit followed by the deferred opposite-polarity bits, then shifts.
pub open spec fn renorm_top_bits(low: int, high: int, pending: int, bits: Seq<bool>) -> (
    int,
    int,
    int,
    Seq<bool>,
)
    recommends
        0 <= pending,
    decreases MAX_VALUE - (high - low)
        when 0 <= low <= high <= MAX_VALUE
{
    if high < HALF {
        renorm_top_bits(
            2 * low,
            2 * high + 1,
            0,
            bits + seq![false] + repeat_bit(true, pending as nat),
        )
    } else if low >= HALF {
        renorm_top_bits(
            2 * (low - HALF),
            2 * (high - HALF) + 1,
            0,
            bits + seq![true] + repeat_bit(false, pending as nat),
        )
    } else {
        (low, high, pending, bits)
    }
}

/// The complete state transition of one encoded symbol: narrowing followed by
/// both renormalization phases.
pub open spec fn coder_transition(
    low: int,
    high: int,
    pending: int,
    symbol_low: int,
    symbol_high: int,
    total: int,
) -> (int, int, int) {
    let nl = narrow_low(low, high, symbol_low, total);
    let nh = narrow_high(low, high, symbol_high, total);
    let (l1, h1, p1) = renorm_top(nl, nh, pending);
    renorm_middle(l1, h1, p1)
}

/// The bit of `input` at bit position `pos`, counting from the most
/// significant bit of the first byte; past the end the stream reads as zeros.
pub open spec fn stream_bit(input: Seq<u8>, pos: nat) -> u8 {
    if pos / 8 < input.len() {
        if (input[(pos / 8) as int] >> ((7 - pos % 8) as u8)) & 1 == 1 {
            1u8
        } else {
            0u8
        }
    } else {
        0u8
    }
}

/// Bit `i` of a byte, most significant first.
pub open spec fn byte_bit(b: u8, i: int) -> bool
    recommends
        0 <= i < 8,
{
    (b as int) / (vstd::arithmetic::power2::pow2((7 - i) as nat) as int) % 2 == 1
}

/// The eight bits of a byte, most significant first.
pub open spec fn byte_bits(b: u8) -> Seq<bool> {
    Seq::new(8, |i: int| byte_bit(b, i))
}

/// The bits of a byte string, each byte most significant first.
pub open spec fn bytes_bits(bs: Seq<u8>) -> Seq<bool>
    decreases bs.len(),
{
    if bs.len() == 0 {
        Seq::empty()
    } else {
        byte_bits(bs[0]) + bytes_bits(bs.drop_first())
    }
}

/// The `count` bits held in a partial output byte, most significant first.
pub open spec fn partial_bits(buffer: u8, count: int) -> Seq<bool>
    recommends
        0 <= count <= 8,
{
    Seq::new(
        count as nat,
        |i: int| (buffer as int) / (vstd::arithmetic::power2::pow2((count - 1 - i) as nat)
            as int) % 2 == 1,
    )
}

/// `n` copies of one bit.
pub open spec fn repeat_bit(b: bool, n: nat) -> Seq<bool> {
    Seq::new(n, |i: int| b)
}

/// The numeric value of a bit string, most significant first.
pub open spec fn bits_value(bits: Seq<bool>) -> int
    decreases bits.len(),
{
    if bits.len() == 0 {
        0
    } else {
        2 * bits_value(bits.drop_last()) + (if bits.last() {
            1int
        } else {
            0int
        })
    }
}

/// Pack a bit string into bytes, most significant bit first; a trailing
/// partial byte is padded with zero bits.
pub open spec fn pack_bits(bits: Seq<bool>) -> Seq<u8>
    decreases bits.len(),
{
    if bits.len() == 0 {
        Seq::empty()
    } else if bits.len() >= 8 {
        seq![bits_value(bits.take(8)) as u8] + pack_bits(bits.skip(8))
    } else {
        seq![(bits_value(bits) * vstd::arithmetic::power2::pow2((8 - bits.len()) as nat)) as u8]
    }
}

/// The value of the first `n` stream bits read most significant first.
pub open spec fn stream_prefix_value(input: Seq<u8>, n: int) -> int
    decreases n,
{
    if n <= 0 {
        0
    } else {
        2 * stream_prefix_value(input, n - 1) + stream_bit(input, (n - 1) as nat) as int
    }
}

/// Decoder top-bit renormalization: each shift consumes one stream bit into
/// the rolling value; past the end of the input the stream reads as zeros.
pub open spec fn renorm_top_dec(
    low: int,
    high: int,
    value: int,
    cursor: int,
    input: Seq<u8>,
) -> (int, int, int, int)
    recommends
        0 <= cursor,
    decreases MAX_VALUE - (high - low)
        when 0 <= low <= high <= MAX_VALUE
{
    if high < HALF {
        renorm_top_dec(
            2 * low,
            2 * high + 1,
            2 * value + stream_bit(input, cursor as nat) as int,
            cursor + 1,
            input,
        )
    } else if low >= HALF {
        renorm_top_dec(
            2 * (low - HALF),
            2 * (high - HALF) + 1,
            2 * (value - HALF) + stream_bit(input, cursor as nat) as int,
            cursor + 1,
            input,
        )
    } else {
        (low, high, value, cursor)
    }
}

/// Decoder underflow renormalization: expand around the midpoint, consuming
/// one stream bit per shift.
pub open spec fn renorm_middle_dec(
    low: int,
    high: int,
    value: int,
    cursor: int,
    input: Seq<u8>,
) -> (int, int, int, int)
    recommends
        0 <= cursor,
    decreases MAX_VALUE - (high - low)
        when 0 <= low <= high <= MAX_VALUE
{
    if low >= QUARTER && high < THREE_QUARTERS {
        renorm_middle_dec(
            2 * (low - QUARTER),
            2 * (high - QUARTER) + 1,
            2 * (value - QUARTER) + stream_bit(input, cursor as nat) as int,
            cursor + 1,
            input,
        )
    } else {
        (low, high, value, cursor)
    }
}

/// The scaled value used to locate a symbol interval while decoding.
pub open spec fn symbol_value_spec(low: int, high: int, value: int, total: int) -> int
    recommends
        1 <= total,
        low <= value <= high,
{
    ((value - low + 1) * total - 1) / (high - low + 1)
}

/// Arithmetic encoder: narrows `[low, high]` per symbol and emits bits, with
/// deferred opposite-polarity bits tracked in `pending_bits`.
pub struct ArithmeticCoder {
    low: u64,
    high: u64,
    pending_bits: u64,
    output: Vec<u8>,
    bit_buffer: u8,
    bit_count: u8,
}

impl ArithmeticCoder {
    /// Coder state invariant: ordered bounds within the precision range, an
    /// interval wider than a quarter of the range, and a partial output byte
    /// holding fewer than 8 bits.
    pub closed spec fn wf(self) -> bool {
        &&& self.low <= self.high <= MAX_VALUE
        &&& self.high - self.low >= QUARTER
        &&& self.bit_count < 8
        &&& (self.bit_buffer as nat) < vstd::arithmetic::power2::pow2(self.bit_count as nat)
    }

    /// The lower bound of the current interval.
    pub closed spec fn spec_low(self) -> u64 {
        self.low
    }

    /// The upper bound of the current interval.
    pub closed spec fn spec_high(self) -> u64 {
        self.high
    }

    /// The count of deferred underflow bits.
    pub closed spec fn spec_pending(self) -> u64 {
        self.pending_bits
    }

    /// The bytes flushed to the output so far.
    pub closed spec fn spec_output(self) -> Seq<u8> {
        self.output@
    }

    /// Every bit emitted so far: the flushed bytes followed by the bits of
    /// the partial output byte.
    pub closed spec fn spec_bits(self) -> Seq<bool> {
        bytes_bits(self.output@) + partial_bits(self.bit_buffer, self.bit_count as int)
    }

    /// A fresh encoder: the full precision range, no pending bits, no output.
    pub fn new() -> (coder: ArithmeticCoder)
        ensures
            coder.wf(),
            coder.spec_low() == 0,
            coder.spec_high() == MAX_VALUE,
            coder.spec_pending() == 0,
            coder.spec_output() =~= Seq::<u8>::empty(),
            coder.spec_bits() == Seq::<bool>::empty(),
    {
        proof {
            vstd::arithmetic::power2::lemma2_to64();
        }
        let coder = ArithmeticCoder {
            low: 0,
            high: MAX_VALUE,
            pending_bits: 0,
            output: Vec::new(),
            bit_buffer: 0,
            bit_count: 0,
        };
        proof {
            assert(partial_bits(0u8, 0) =~= Seq::<bool>::empty());
            assert(coder.spec_bits() =~= Seq::<bool>::empty());
        }
        coder
    }

    /// Append one bit to the packed output.
    fn output_bit(&mut self, bit: u8)
        requires
            old(self).bit_count < 8,
            (old(self).bit_buffer as nat) < vstd::arithmetic::power2::pow2(
                old(self).bit_count as nat,
            ),
            bit <= 1,
        ensures
            final(self).bit_count < 8,
            (final(self).bit_buffer as nat) < vstd::arithmetic::power2::pow2(
                final(self).bit_count as nat,
            ),
            final(self).low == old(self).low,
            final(self).high == old(self).high,
            final(self).pending_bits == old(self).pending_bits,
            old(self).output@.is_prefix_of(final(self).output@),
            final(self).output@.len() <= old(self).output@.len() + 1,
            final(self).spec_bits() == old(self).spec_bits().push(bit == 1),
    {
        proof {
            vstd::arithmetic::power2::lemma2_to64();
            assert(vstd::arithmetic::power2::pow2(self.bit_count as nat) <= 128) by {
                vstd::arithmetic::power2::lemma_pow2_adds(
                    self.bit_count as nat,
                    (7 - self.bit_count) as nat,
                );
                vstd::arithmetic::power2::lemma_pow2_pos((7 - self.bit_count) as nat);
            }
        }
        self.bit_buffer = self.bit_buffer * 2 + bit;
        self.bit_count = self.bit_count + 1;
        proof {
            lemma_partial_bits_shift(
                old(self).bit_buffer,
                old(self).bit_count as int,
                bit,
            );
        }
        if self.bit_count == 8 {
            let b = self.bit_buffer;
            proof {
                lemma_bytes_bits_push(self.output@, b);
                assert(partial_bits(0u8, 0) =~= Seq::<bool>::empty());
            }
            self.output.push(b);
            self.bit_buffer = 0;
            self.bit_count = 0;
        }
        proof {
            vstd::arithmetic::power2::lemma2_to64();
            assert(old(self).output@.is_prefix_of(self.output@));
            assert(self.spec_bits() =~= old(self).spec_bits().push(bit == 1));
        }
    }

    /// Flush the deferred opposite-polarity bits.
    fn output_pending_bits(&mut self, bit: u8)
        requires
            old(self).bit_count < 8,
            (old(self).bit_buffer as nat) < vstd::arithmetic::power2::pow2(
                old(self).bit_count as nat,
            ),
            bit <= 1,
        ensures
            final(self).bit_count < 8,
            (final(self).bit_buffer as nat) < vstd::arithmetic::power2::pow2(
                final(self).bit_count as nat,
            ),
            final(self).low == old(self).low,
            final(self).high == old(self).high,
            final(self).pending_bits == 0,
            old(self).output@.is_prefix_of(final(self).output@),
            final(self).spec_bits() == old(self).spec_bits() + repeat_bit(
                bit == 1,
                old(self).pending_bits as nat,
            ),
    {
        let mut i: u64 = 0;
        let pending = self.pending_bits;
        proof {
            assert(self.spec_bits() =~= old(self).spec_bits() + repeat_bit(bit == 1, 0));
        }
        while i < pending
            invariant
                i <= pending,
                self.bit_count < 8,
                (self.bit_buffer as nat) < vstd::arithmetic::power2::pow2(self.bit_count as nat),
                self.low == old(self).low,
                self.high == old(self).high,
                bit <= 1,
                old(self).output@.is_prefix_of(self.output@),
                self.spec_bits() == old(self).spec_bits() + repeat_bit(bit == 1, i as nat),
            decreases pending - i,
        {
            self.output_bit(bit);
            proof {
                assert(old(self).spec_bits() + repeat_bit(bit == 1, i as nat).push(bit == 1)
                    =~= old(self).spec_bits() + repeat_bit(bit == 1, i as nat + 1));
            }
            i = i + 1;
        }
        proof {
            assert(self.spec_bits() =~= old(self).spec_bits() + repeat_bit(
                bit == 1,
                old(self).pending_bits as nat,
            ));
        }
        self.pending_bits = 0;
    }

    /// Encode one symbol given its cumulative interval `[symbol_low,
    /// symbol_high)` out of `total`: the bounds narrow proportionally and are
    /// renormalized, emitting bits as the spec transition dictates.
    pub fn encode_symbol(&mut self, symbol_low: u64, symbol_high: u64, total: u64)
        requires
            old(self).wf(),
            symbol_low < symbol_high <= total,
            total <= QUARTER,
            old(self).spec_pending() + 64 <= u64::MAX,
        ensures
            final(self).wf(),
            (
                final(self).spec_low() as int,
                final(self).spec_high() as int,
                final(self).spec_pending() as int,
            ) == coder_transition(
                old(self).spec_low() as int,
                old(self).spec_high() as int,
                old(self).spec_pending() as int,
                symbol_low as int,
                symbol_high as int,
                total as int,
            ),
            old(self).spec_output().is_prefix_of(final(self).spec_output()),
            final(self).spec_pending() <= old(self).spec_pending() + 62,
            final(self).spec_bits() == renorm_top_bits(
                narrow_low(
                    old(self).spec_low() as int,
                    old(self).spec_high() as int,
                    symbol_low as int,
                    total as int,
                ),
                narrow_high(
                    old(self).spec_low() as int,
                    old(self).spec_high() as int,
                    symbol_high as int,
                    total as int,
                ),
                old(self).spec_pending() as int,
                old(self).spec_bits(),
            ).3,
    {
        let ghost g_low = self.low as int;
        let ghost g_high = self.high as int;
        let ghost g_range = g_high - g_low + 1;
        proof {
            lemma_narrow_bounds(
                g_low,
                g_high,
                symbol_low as int,
                symbol_high as int,
                total as int,
            );
        }
        let range_wide: u128 = self.high as u128 - self.low as u128 + 1;
        assert(range_wide * (symbol_high as u128) <= 0x4000_0000_0000_0000u128
            * 0x1000_0000_0000_0000u128) by (nonlinear_arith)
            requires
                range_wide <= 0x4000_0000_0000_0000u128,
                symbol_high <= 0x1000_0000_0000_0000u64,
        ;
        assert(range_wide * (symbol_low as u128) <= range_wide * (symbol_high as u128))
            by (nonlinear_arith)
            requires
                symbol_low <= symbol_high,
        ;
        let q_high: u128 = range_wide * (symbol_high as u128) / (total as u128);
        let q_low: u128 = range_wide * (symbol_low as u128) / (total as u128);
        proof {
            assert(q_high as int == g_range * (symbol_high as int) / (total as int));
            assert(q_low as int == g_range * (symbol_low as int) / (total as int));
        }
        let new_high: u64 = self.low + (q_high as u64) - 1;
        let new_low: u64 = self.low + (q_low as u64);
        self.high = new_high;
        self.low = new_low;
        let ghost n_low = self.low;
        let ghost n_high = self.high;
        let ghost n_pending = self.pending_bits;
        let ghost n_bits = self.spec_bits();
        proof {
            assert(n_low as int == narrow_low(g_low, g_high, symbol_low as int, total as int));
            assert(n_high as int == narrow_high(g_low, g_high, symbol_high as int, total as int));
        }

        while self.high < HALF || self.low >= HALF
            invariant
                self.low <= self.high <= MAX_VALUE,
                self.bit_count < 8,
                (self.bit_buffer as nat) < vstd::arithmetic::power2::pow2(self.bit_count as nat),
                self.pending_bits == n_pending || self.pending_bits == 0,
                n_pending + 64 <= u64::MAX,
                renorm_top(self.low as int, self.high as int, self.pending_bits as int)
                    == renorm_top(n_low as int, n_high as int, n_pending as int),
                renorm_top_bits(
                    self.low as int,
                    self.high as int,
                    self.pending_bits as int,
                    self.spec_bits(),
                ) == renorm_top_bits(
                    n_low as int,
                    n_high as int,
                    n_pending as int,
                    n_bits,
                ),
                old(self).output@.is_prefix_of(self.output@),
            decreases MAX_VALUE - (self.high - self.low),
        {
            let ghost pre_bits = self.spec_bits();
            let ghost pre_pending = self.pending_bits;
            if self.high < HALF {
                self.output_bit(0);
                self.output_pending_bits(1);
                proof {
                    assert(self.spec_bits() =~= pre_bits + seq![false] + repeat_bit(
                        true,
                        pre_pending as nat,
                    ));
                }
            } else {
                self.output_bit(1);
                self.output_pending_bits(0);
                self.low = self.low - HALF;
                self.high = self.high - HALF;
                proof {
                    assert(self.spec_bits() =~= pre_bits + seq![true] + repeat_bit(
                        false,
                        pre_pending as nat,
                    ));
                }
            }
            self.low = self.low * 2;
            self.high = self.high * 2 + 1;
        }
        let ghost t_low = self.low;
        let ghost t_high = self.high;
        let ghost t_pending = self.pending_bits;
        let ghost t_bits = self.spec_bits();
        proof {
            assert((t_low as int, t_high as int, t_pending as int) == renorm_top(
                n_low as int,
                n_high as int,
                n_pending as int,
            ));
            assert(t_bits == renorm_top_bits(
                n_low as int,
                n_high as int,
                n_pending as int,
                n_bits,
            ).3);
            assert(self.low < HALF <= self.high);
            vstd::arithmetic::power2::lemma2_to64();
            assert((t_high - t_low + 1) * vstd::arithmetic::power2::pow2(0) == t_high - t_low
                + 1) by (nonlinear_arith)
                requires
                    vstd::arithmetic::power2::pow2(0) == 1,
            ;
        }

        while self.low >= QUARTER && self.high < THREE_QUARTERS
            invariant
                self.low <= self.high <= MAX_VALUE,
                self.low < HALF <= self.high,
                self.bit_count < 8,
                (self.bit_buffer as nat) < vstd::arithmetic::power2::pow2(self.bit_count as nat),
                old(self).output@.is_prefix_of(self.output@),
                self.high - self.low + 1 >= (t_high - t_low + 1) * vstd::arithmetic::power2::pow2(
                    (self.pending_bits - t_pending) as nat,
                ),
                t_low <= t_high <= MAX_VALUE,
                t_pending <= self.pending_bits,
                self.pending_bits - t_pending <= 62,
                t_pending == n_pending || t_pending == 0,
                n_pending + 64 <= u64::MAX,
                self.spec_bits() == t_bits,
                renorm_middle(self.low as int, self.high as int, self.pending_bits as int)
                    == renorm_middle(t_low as int, t_high as int, t_pending as int),
            decreases MAX_VALUE - (self.high - self.low),
        {
            proof {
                let k = (self.pending_bits - t_pending) as nat;
                lemma_pending_iterations_bounded(
                    t_high - t_low + 1,
                    self.high - self.low + 1,
                    k,
                );
            }
            self.pending_bits = self.pending_bits + 1;
            self.low = (self.low - QUARTER) * 2;
            self.high = (self.high - QUARTER) * 2 + 1;
            proof {
                vstd::arithmetic::power2::lemma_pow2_unfold((self.pending_bits - t_pending) as nat);
                assert((self.high - self.low + 1) >= (t_high - t_low + 1)
                    * vstd::arithmetic::power2::pow2((self.pending_bits - t_pending) as nat))
                    by (nonlinear_arith)
                    requires
                        self.high - self.low + 1 >= 2 * ((t_high - t_low + 1)
                            * vstd::arithmetic::power2::pow2(
                            (self.pending_bits - 1 - t_pending) as nat,
                        )),
                        vstd::arithmetic::power2::pow2((self.pending_bits - t_pending) as nat) == 2
                            * vstd::arithmetic::power2::pow2(
                            (self.pending_bits - 1 - t_pending) as nat,
                        ),
                ;
            }
        }
    }

    /// Flush the final disambiguating bit, all pending bits, and any partial
    /// byte, returning the packed bitstream: the bits emitted so far, one
    /// bit telling the two remaining quarter intervals apart, the deferred
    /// opposite-polarity bits, and zero padding to a byte boundary.
    pub fn finish(self) -> (output: Vec<u8>)
        requires
            self.wf(),
            self.spec_pending() + 1 <= u64::MAX,
        ensures
            self.spec_output().is_prefix_of(output@),
            output@ == pack_bits(
                self.spec_bits() + seq![self.spec_low() >= QUARTER] + repeat_bit(
                    self.spec_low() < QUARTER,
                    (self.spec_pending() + 1) as nat,
                ),
            ),
    {
        let ghost base = self.spec_bits();
        let ghost fb = self.low >= QUARTER;
        let mut coder = self;
        coder.pending_bits = coder.pending_bits + 1;
        if coder.low < QUARTER {
            coder.output_bit(0);
            coder.output_pending_bits(1);
        } else {
            coder.output_bit(1);
            coder.output_pending_bits(0);
        }
        proof {
            assert(coder.spec_bits() =~= base + seq![fb] + repeat_bit(
                !fb,
                (self.spec_pending() + 1) as nat,
            ));
        }
        if coder.bit_count > 0 {
            // pad the partial byte to a byte boundary: the written bits stay
            // in the high positions the decoder reads first
            let mut b = coder.bit_buffer;
            let mut k = coder.bit_count;
            proof {
                vstd::arithmetic::power2::lemma2_to64();
                assert(vstd::arithmetic::power2::pow2((k - coder.bit_count) as nat) == 1);
                assert(b as int == coder.bit_buffer as int * 1);
            }
            while k < 8
                invariant
                    coder.bit_count <= k <= 8,
                    0 < coder.bit_count < 8,
                    (coder.bit_buffer as nat) < vstd::arithmetic::power2::pow2(
                        coder.bit_count as nat,
                    ),
                    (b as nat) < vstd::arithmetic::power2::pow2(k as nat),
                    b as int == coder.bit_buffer as int * vstd::arithmetic::power2::pow2(
                        (k - coder.bit_count) as nat,
                    ),
                decreases 8 - k,
            {
                proof {
                    vstd::arithmetic::power2::lemma_pow2_unfold(k as nat + 1);
                    vstd::arithmetic::power2::lemma_pow2_unfold(
                        (k + 1 - coder.bit_count) as nat,
                    );
                    vstd::arithmetic::power2::lemma2_to64();
                    if k < 7 {
                        vstd::arithmetic::power2::lemma_pow2_strictly_increases(k as nat + 1, 8);
                    }
                    assert(vstd::arithmetic::power2::pow2(8) == 256);
                    let p = vstd::arithmetic::power2::pow2((k - coder.bit_count) as nat) as int;
                    assert(2 * (coder.bit_buffer as int * p) == coder.bit_buffer as int * (2
                        * p)) by (nonlinear_arith);
                }
                b = b * 2;
                k = k + 1;
            }
            proof {
                lemma_pack_bytes_prefix(
                    coder.output@,
                    partial_bits(coder.bit_buffer, coder.bit_count as int),
                );
                lemma_bits_value_partial(coder.bit_buffer, coder.bit_count as int);
                vstd::arithmetic::power2::lemma_pow2_adds(
                    coder.bit_count as nat,
                    (8 - coder.bit_count) as nat,
                );
                vstd::arithmetic::power2::lemma2_to64();
                assert(pack_bits(partial_bits(coder.bit_buffer, coder.bit_count as int))
                    =~= seq![b]);
                assert(coder.output@ + seq![b] =~= pack_bits(coder.spec_bits()));
            }
            coder.output.push(b);
        } else {
            proof {
                assert(partial_bits(coder.bit_buffer, 0) =~= Seq::<bool>::empty());
                assert(bytes_bits(coder.output@) + Seq::<bool>::empty() =~= bytes_bits(
                    coder.output@,
                ));
                lemma_pack_bytes_prefix(coder.output@, Seq::<bool>::empty());
                assert(pack_bits(Seq::<bool>::empty()) == Seq::<u8>::empty());
                assert(coder.output@ =~= pack_bits(coder.spec_bits()));
            }
        }
        coder.output
    }
}

/// Narrowing keeps the bounds ordered and inside the precision range whenever
/// the symbol interval is non-empty, the total fits in a quarter of the
/// range, and the interval is at least a quarter wide.
pub proof fn lemma_narrow_bounds(low: int, high: int, symbol_low: int, symbol_high: int, total: int)
    requires
        0 <= low <= high <= MAX_VALUE,
        high - low >= QUARTER,
        0 <= symbol_low < symbol_high <= total,
        1 <= total <= QUARTER,
    ensures
        low <= narrow_low(low, high, symbol_low, total),
        narrow_low(low, high, symbol_low, total) <= narrow_high(low, high, symbol_high, total),
        narrow_high(low, high, symbol_high, total) <= high,
        1 <= (high - low + 1) * symbol_high / total <= high - low + 1,
        0 <= (high - low + 1) * symbol_low / total,
        (high - low + 1) * symbol_low / total < (high - low + 1) * symbol_high / total,
{
    let range = high - low + 1;
    let ql = range * symbol_low / total;
    let qh = range * symbol_high / total;
    assert(0 <= range * symbol_low <= range * symbol_high <= range * total) by (nonlinear_arith)
        requires
            0 <= symbol_low <= symbol_high <= total,
            range >= 0,
    ;
    vstd::arithmetic::div_mod::lemma_div_pos_is_pos(range * symbol_low, total);
    vstd::arithmetic::div_mod::lemma_div_is_ordered(range * symbol_high, range * total, total);
    assert(range * total == total * range) by (nonlinear_arith);
    vstd::arithmetic::div_mod::lemma_div_multiples_vanish(range, total);
    assert(qh <= range);
    lemma_div_gap(range, symbol_low, symbol_high, total);
    assert(ql < qh);
}

/// With a range at least as wide as the total, distinct cumulative bounds map
/// to distinct narrowed bounds.
proof fn lemma_div_gap(range: int, symbol_low: int, symbol_high: int, total: int)
    requires
        1 <= total <= range,
        0 <= symbol_low < symbol_high,
    ensures
        range * symbol_low / total < range * symbol_high / total,
{
    let lq = range * symbol_low / total;
    vstd::arithmetic::div_mod::lemma_fundamental_div_mod(range * symbol_low, total);
    let lr = (range * symbol_low) % total;
    assert(range * symbol_low == total * lq + lr);
    assert(0 <= lr < total);
    assert(range * symbol_high >= total * (lq + 1)) by (nonlinear_arith)
        requires
            symbol_high >= symbol_low + 1,
            range >= total >= 1,
            range * symbol_low == total * lq + lr,
            0 <= lr < total,
    ;
    vstd::arithmetic::div_mod::lemma_div_multiples_vanish(lq + 1, total);
    vstd::arithmetic::div_mod::lemma_div_is_ordered(total * (lq + 1), range * symbol_high, total);
}

/// Each underflow expansion doubles the interval width, and the width stays
/// inside the middle half while the loop runs, so at most 61 expansions can
/// have happened before any further one.
proof fn lemma_pending_iterations_bounded(w0: int, w: int, k: nat)
    requires
        1 <= w0,
        w >= w0 * vstd::arithmetic::power2::pow2(k),
        w <= HALF,
    ensures
        k <= 61,
{
    if k > 61 {
        vstd::arithmetic::power2::lemma2_to64_rest();
        assert(vstd::arithmetic::power2::pow2(62) == 0x4000_0000_0000_0000);
        if k > 62 {
            vstd::arithmetic::power2::lemma_pow2_strictly_increases(62, k);
        }
        assert(vstd::arithmetic::power2::pow2(k) >= 0x4000_0000_0000_0000);
        assert(w0 * vstd::arithmetic::power2::pow2(k) >= vstd::arithmetic::power2::pow2(k))
            by (nonlinear_arith)
            requires
                w0 >= 1,
                vstd::arithmetic::power2::pow2(k) >= 0,
        ;
        assert(false);
    }
}


/// Arithmetic decoder: mirrors the encoder's narrowing, consuming one input
/// bit for every bit the encoder emitted; past the end of the input the
/// stream reads as zero bits.
pub struct ArithmeticDecoder {
    low: u64,
    high: u64,
    value: u64,
    input: Vec<u8>,
    byte_pos: usize,
    bit_pos: u8,
}

impl ArithmeticDecoder {
    /// Decoder state invariant: ordered bounds within the precision range, an
    /// interval wider than a quarter of the range, the rolling value inside
    /// the bounds, and a cursor inside or just past the input.
    pub closed spec fn wf(self) -> bool {
        &&& self.low <= self.high <= MAX_VALUE
        &&& self.high - self.low >= QUARTER
        &&& self.low <= self.value <= self.high
        &&& self.bit_pos < 8
        &&& self.byte_pos <= self.input@.len()
        &&& (self.byte_pos == self.input@.len() ==> self.bit_pos == 0)
    }

    /// The lower bound of the current interval.
    pub closed spec fn spec_low(self) -> u64 {
        self.low
    }

    /// The upper bound of the current interval.
    pub closed spec fn spec_high(self) -> u64 {
        self.high
    }

    /// The rolling code value read from the stream.
    pub closed spec fn spec_value(self) -> u64 {
        self.value
    }

    /// The input bytes being decoded.
    pub closed spec fn spec_input(self) -> Seq<u8> {
        self.input@
    }

    /// The read cursor, in bits from the start of the input.
    pub closed spec fn spec_cursor(self) -> int {
        self.byte_pos * 8 + self.bit_pos
    }

    /// A fresh decoder over an input stream: the full precision range, with
    /// the first 62 stream bits loaded into the rolling value.
    pub fn new(input: Vec<u8>) -> (decoder: ArithmeticDecoder)
        requires
            input@.len() <= usize::MAX - 1,
        ensures
            decoder.wf(),
            decoder.spec_low() == 0,
            decoder.spec_high() == MAX_VALUE,
            decoder.spec_input() == input@,
            decoder.spec_value() as int == stream_prefix_value(input@, 62),
            decoder.spec_cursor() == vstd::math::min(62, 8 * input@.len() as int),
    {
        let mut decoder = ArithmeticDecoder {
            low: 0,
            high: MAX_VALUE,
            value: 0,
            input,
            byte_pos: 0,
            bit_pos: 0,
        };
        let mut i: u64 = 0;
        proof {
            vstd::arithmetic::power2::lemma2_to64();
        }
        while i < 62
            invariant
                i <= 62,
                decoder.bit_pos < 8,
                decoder.byte_pos <= decoder.input@.len(),
                (decoder.value as nat) < vstd::arithmetic::power2::pow2(i as nat),
                decoder.value as int == stream_prefix_value(input@, i as int),
                decoder.spec_cursor() == vstd::math::min(8 * input@.len() as int, i as int),
                decoder.low == 0,
                decoder.high == MAX_VALUE,
                decoder.input@ == input@,
            decreases 62 - i,
        {
            proof {
                vstd::arithmetic::power2::lemma_pow2_unfold(i as nat + 1);
                vstd::arithmetic::power2::lemma2_to64_rest();
                if i < 61 {
                    vstd::arithmetic::power2::lemma_pow2_strictly_increases(
                        i as nat + 1,
                        62,
                    );
                }
                assert(vstd::arithmetic::power2::pow2(62) == 0x4000_0000_0000_0000);
            }
            let ghost precur = decoder.spec_cursor();
            let bit = decoder.input_bit();
            proof {
                if precur != i as int {
                    // the cursor stopped at the end of the input: both the
                    // read bit and the spec bit are zero
                    vstd::arithmetic::div_mod::lemma_div_is_ordered(
                        8 * input@.len() as int,
                        i as int,
                        8,
                    );
                    vstd::arithmetic::div_mod::lemma_div_multiples_vanish(
                        input@.len() as int,
                        8,
                    );
                    assert(stream_bit(input@, i as nat) == 0);
                }
            }
            decoder.value = decoder.value * 2 + bit as u64;
            i = i + 1;
        }
        proof {
            vstd::arithmetic::power2::lemma2_to64_rest();
            assert(vstd::arithmetic::power2::pow2(62) == 0x4000_0000_0000_0000);
        }
        decoder
    }

    /// The scaled position of the rolling value within the current interval,
    /// used to look a symbol up in the frequency model.
    pub fn get_symbol_value(&self, total: u64) -> (r: u64)
        requires
            self.wf(),
            1 <= total <= QUARTER,
        ensures
            r as int == symbol_value_spec(
                self.spec_low() as int,
                self.spec_high() as int,
                self.spec_value() as int,
                total as int,
            ),
            r < total,
    {
        let range: u128 = self.high as u128 - self.low as u128 + 1;
        let dist: u128 = self.value as u128 - self.low as u128 + 1;
        assert(dist * (total as u128) <= range * (total as u128)) by (nonlinear_arith)
            requires
                dist <= range,
        ;
        assert(range * (total as u128) <= 0x4000_0000_0000_0000u128 * 0x1000_0000_0000_0000u128)
            by (nonlinear_arith)
            requires
                range <= 0x4000_0000_0000_0000u128,
                total <= 0x1000_0000_0000_0000u64,
        ;
        assert(dist * (total as u128) >= 1) by (nonlinear_arith)
            requires
                dist >= 1,
                total >= 1,
        ;
        let scaled: u128 = (dist * total as u128 - 1) / range;
        proof {
            let g_range = self.high as int - self.low as int + 1;
            let g_dist = self.value as int - self.low as int + 1;
            lemma_symbol_value_bound(g_range, g_dist, total as int);
        }
        scaled as u64
    }

    /// Decode one symbol whose cumulative interval the caller located from
    /// the scaled value: the bounds narrow exactly as the encoder's did, and
    /// the renormalization consumes one stream bit per shift.
    pub fn decode_symbol(&mut self, symbol_low: u64, symbol_high: u64, total: u64)
        requires
            old(self).wf(),
            symbol_low < symbol_high <= total,
            1 <= total <= QUARTER,
            symbol_low as int <= symbol_value_spec(
                old(self).spec_low() as int,
                old(self).spec_high() as int,
                old(self).spec_value() as int,
                total as int,
            ) < symbol_high as int,
        ensures
            final(self).wf(),
            final(self).spec_input() == old(self).spec_input(),
            ({
                let (l, h, p) = coder_transition(
                    old(self).spec_low() as int,
                    old(self).spec_high() as int,
                    0,
                    symbol_low as int,
                    symbol_high as int,
                    total as int,
                );
                final(self).spec_low() as int == l && final(self).spec_high() as int == h
            }),
            ({
                let nl = narrow_low(
                    old(self).spec_low() as int,
                    old(self).spec_high() as int,
                    symbol_low as int,
                    total as int,
                );
                let nh = narrow_high(
                    old(self).spec_low() as int,
                    old(self).spec_high() as int,
                    symbol_high as int,
                    total as int,
                );
                let (l1, h1, v1, c1) = renorm_top_dec(
                    nl,
                    nh,
                    old(self).spec_value() as int,
                    old(self).spec_cursor(),
                    old(self).spec_input(),
                );
                let (l2, h2, v2, c2) = renorm_middle_dec(
                    l1,
                    h1,
                    v1,
                    c1,
                    old(self).spec_input(),
                );
                final(self).spec_value() as int == v2 && final(self).spec_cursor()
                    == vstd::math::min(c2, 8 * old(self).spec_input().len() as int)
            }),
    {
        let ghost g_low = self.low as int;
        let ghost g_high = self.high as int;
        proof {
            lemma_narrow_bounds(
                g_low,
                g_high,
                symbol_low as int,
                symbol_high as int,
                total as int,
            );
            lemma_decode_narrow_value(
                g_low,
                g_high,
                self.value as int,
                symbol_low as int,
                symbol_high as int,
                total as int,
            );
        }
        let range_wide: u128 = self.high as u128 - self.low as u128 + 1;
        assert(range_wide * (symbol_high as u128) <= 0x4000_0000_0000_0000u128
            * 0x1000_0000_0000_0000u128) by (nonlinear_arith)
            requires
                range_wide <= 0x4000_0000_0000_0000u128,
                symbol_high <= 0x1000_0000_0000_0000u64,
        ;
        assert(range_wide * (symbol_low as u128) <= range_wide * (symbol_high as u128))
            by (nonlinear_arith)
            requires
                symbol_low <= symbol_high,
        ;
        let q_high: u128 = range_wide * (symbol_high as u128) / (total as u128);
        let q_low: u128 = range_wide * (symbol_low as u128) / (total as u128);
        let new_high: u64 = self.low + (q_high as u64) - 1;
        let new_low: u64 = self.low + (q_low as u64);
        self.high = new_high;
        self.low = new_low;
        let ghost n_low = self.low;
        let ghost n_high = self.high;
        let ghost n_value = self.value;
        let ghost n_cursor = self.spec_cursor();
        let ghost mut spec_cur: int = self.spec_cursor();

        while self.high < HALF || self.low >= HALF
            invariant
                self.low <= self.high <= MAX_VALUE,
                self.low <= self.value <= self.high,
                self.bit_pos < 8,
                self.byte_pos <= self.input@.len(),
                self.input@ == old(self).input@,
                n_cursor >= 0,
                n_cursor <= spec_cur,
                self.spec_cursor() == vstd::math::min(spec_cur, 8 * self.input@.len() as int),
                renorm_top(self.low as int, self.high as int, 0) == renorm_top(
                    n_low as int,
                    n_high as int,
                    0,
                ),
                renorm_top_dec(
                    self.low as int,
                    self.high as int,
                    self.value as int,
                    spec_cur,
                    self.input@,
                ) == renorm_top_dec(
                    n_low as int,
                    n_high as int,
                    n_value as int,
                    n_cursor,
                    self.input@,
                ),
            decreases MAX_VALUE - (self.high - self.low),
        {
            if self.high < HALF {
            } else {
                self.low = self.low - HALF;
                self.high = self.high - HALF;
                self.value = self.value - HALF;
            }
            self.low = self.low * 2;
            self.high = self.high * 2 + 1;
            let ghost precur = self.spec_cursor();
            let bit = self.input_bit();
            proof {
                if precur != spec_cur {
                    vstd::arithmetic::div_mod::lemma_div_is_ordered(
                        8 * self.input@.len() as int,
                        spec_cur,
                        8,
                    );
                    vstd::arithmetic::div_mod::lemma_div_multiples_vanish(
                        self.input@.len() as int,
                        8,
                    );
                    assert(stream_bit(self.input@, spec_cur as nat) == 0);
                }
            }
            self.value = self.value * 2 + bit as u64;
            proof {
                spec_cur = spec_cur + 1;
            }
        }
        let ghost t_low = self.low;
        let ghost t_high = self.high;

        let ghost t_value = self.value;
        let ghost t_cursor = spec_cur;

        while self.low >= QUARTER && self.high < THREE_QUARTERS
            invariant
                self.low <= self.high <= MAX_VALUE,
                self.low < HALF <= self.high,
                self.low <= self.value <= self.high,
                self.bit_pos < 8,
                self.byte_pos <= self.input@.len(),
                self.input@ == old(self).input@,
                t_low <= t_high <= MAX_VALUE,
                t_cursor >= 0,
                t_cursor <= spec_cur,
                self.spec_cursor() == vstd::math::min(spec_cur, 8 * self.input@.len() as int),
                ({
                    let (l1, h1, p1) = renorm_middle(self.low as int, self.high as int, 0);
                    let (l2, h2, p2) = renorm_middle(t_low as int, t_high as int, 0);
                    l1 == l2 && h1 == h2
                }),
                renorm_middle_dec(
                    self.low as int,
                    self.high as int,
                    self.value as int,
                    spec_cur,
                    self.input@,
                ) == renorm_middle_dec(
                    t_low as int,
                    t_high as int,
                    t_value as int,
                    t_cursor,
                    self.input@,
                ),
            decreases MAX_VALUE - (self.high - self.low),
        {
            let ghost pre_low = self.low as int;
            let ghost pre_high = self.high as int;
            self.low = (self.low - QUARTER) * 2;
            self.high = (self.high - QUARTER) * 2 + 1;
            self.value = (self.value - QUARTER) * 2;
            let ghost precur = self.spec_cursor();
            let bit = self.input_bit();
            proof {
                if precur != spec_cur {
                    vstd::arithmetic::div_mod::lemma_div_is_ordered(
                        8 * self.input@.len() as int,
                        spec_cur,
                        8,
                    );
                    vstd::arithmetic::div_mod::lemma_div_multiples_vanish(
                        self.input@.len() as int,
                        8,
                    );
                    assert(stream_bit(self.input@, spec_cur as nat) == 0);
                }
            }
            self.value = self.value + bit as u64;
            proof {
                spec_cur = spec_cur + 1;
                lemma_renorm_middle_pending_irrelevant(
                    self.low as int,
                    self.high as int,
                    1,
                    0,
                );
            }
        }
    }

    /// Read the next bit of the input stream; past the end the stream reads
    /// as zeros and the cursor stays put.
    fn input_bit(&mut self) -> (bit: u8)
        requires
            old(self).bit_pos < 8,
            old(self).byte_pos <= old(self).input@.len(),
        ensures
            bit <= 1,
            final(self).bit_pos < 8,
            final(self).byte_pos <= final(self).input@.len(),
            final(self).input@ == old(self).input@,
            final(self).low == old(self).low,
            final(self).high == old(self).high,
            final(self).value == old(self).value,
            bit == stream_bit(
                old(self).input@,
                (old(self).byte_pos * 8 + old(self).bit_pos) as nat,
            ),
            final(self).spec_cursor() == if old(self).spec_cursor() < 8 * old(
                self,
            ).input@.len() {
                old(self).spec_cursor() + 1
            } else {
                old(self).spec_cursor()
            },
    {
        if self.byte_pos >= self.input.len() {
            return 0;
        }
        let byte = self.input[self.byte_pos];
        let shift: u8 = 7 - self.bit_pos;
        let bit = (byte >> shift) & 1;
        proof {
            assert((self.byte_pos * 8 + self.bit_pos) as nat / 8 == self.byte_pos as nat
                && (self.byte_pos * 8 + self.bit_pos) as nat % 8 == self.bit_pos as nat) by {
                vstd::arithmetic::div_mod::lemma_fundamental_div_mod_converse(
                    (self.byte_pos * 8 + self.bit_pos) as int,
                    8,
                    self.byte_pos as int,
                    self.bit_pos as int,
                );
            }
        }
        self.bit_pos = self.bit_pos + 1;
        if self.bit_pos == 8 {
            self.bit_pos = 0;
            self.byte_pos = self.byte_pos + 1;
        }
        assert(bit <= 1) by (bit_vector)
            requires
                bit == (byte >> shift) & 1,
        ;
        bit
    }
}

/// The scaled symbol value stays below the total.
proof fn lemma_symbol_value_bound(range: int, dist: int, total: int)
    requires
        1 <= dist <= range,
        1 <= total,
    ensures
        0 <= (dist * total - 1) / range < total,
{
    assert(1 <= dist * total <= range * total) by (nonlinear_arith)
        requires
            1 <= dist <= range,
            1 <= total,
    ;
    vstd::arithmetic::div_mod::lemma_div_pos_is_pos(dist * total - 1, range);
    vstd::arithmetic::div_mod::lemma_div_is_ordered(dist * total - 1, range * total - 1, range);
    lemma_mul_minus_one_div(range, total);
}

/// `(r * t - 1) / r == t - 1` for positive `r` and `t`.
proof fn lemma_mul_minus_one_div(r: int, t: int)
    requires
        1 <= r,
        1 <= t,
    ensures
        (r * t - 1) / r == t - 1,
{
    assert(r * t - 1 == (t - 1) * r + (r - 1)) by (nonlinear_arith);
    vstd::arithmetic::div_mod::lemma_fundamental_div_mod_converse(
        r * t - 1,
        r,
        t - 1,
        r - 1,
    );
}

/// When the scaled value lies inside a symbol's cumulative interval, the
/// narrowed bounds still bracket the rolling value.
proof fn lemma_decode_narrow_value(
    low: int,
    high: int,
    value: int,
    symbol_low: int,
    symbol_high: int,
    total: int,
)
    requires
        0 <= low <= value <= high <= MAX_VALUE,
        0 <= symbol_low < symbol_high <= total,
        1 <= total,
        symbol_low <= symbol_value_spec(low, high, value, total) < symbol_high,
    ensures
        narrow_low(low, high, symbol_low, total) <= value,
        value <= narrow_high(low, high, symbol_high, total),
{
    let range = high - low + 1;
    let x = (value - low + 1) * total - 1;
    let scaled = x / range;
    vstd::arithmetic::div_mod::lemma_fundamental_div_mod(x, range);
    let xr = x % range;
    assert(x == range * scaled + xr);
    assert(0 <= xr < range);
    // lower bound: range * symbol_low <= x, so floor(range*sl/total) <= value - low
    assert(range * symbol_low <= x) by (nonlinear_arith)
        requires
            symbol_low <= scaled,
            x == range * scaled + xr,
            xr >= 0,
            range >= 1,
    ;
    vstd::arithmetic::div_mod::lemma_div_is_ordered(range * symbol_low, x, total);
    lemma_mul_minus_one_div_general(value - low + 1, total);
    // upper bound: x < range * symbol_high, so value - low + 1 <= floor(range*sh/total)
    assert(x < range * symbol_high) by (nonlinear_arith)
        requires
            scaled < symbol_high,
            x == range * scaled + xr,
            xr < range,
            range >= 1,
    ;
    assert((value - low + 1) * total <= range * symbol_high);
    vstd::arithmetic::div_mod::lemma_div_is_ordered(
        (value - low + 1) * total,
        range * symbol_high,
        total,
    );
    assert((value - low + 1) * total == total * (value - low + 1)) by (nonlinear_arith);
    vstd::arithmetic::div_mod::lemma_div_multiples_vanish(value - low + 1, total);
}

/// `(a * t - 1) / t == a - 1` for positive `a` and `t`.
proof fn lemma_mul_minus_one_div_general(a: int, t: int)
    requires
        1 <= a,
        1 <= t,
    ensures
        (a * t - 1) / t == a - 1,
{
    assert(a * t - 1 == (a - 1) * t + (t - 1)) by (nonlinear_arith);
    vstd::arithmetic::div_mod::lemma_fundamental_div_mod_converse(
        a * t - 1,
        t,
        a - 1,
        t - 1,
    );
}

/// The bounds computed by the underflow renormalization do not depend on the
/// incoming pending-bit count.
pub proof fn lemma_renorm_middle_pending_irrelevant(low: int, high: int, p: int, q: int)
    requires
        0 <= low <= high <= MAX_VALUE,
    ensures
        ({
            let (l1, h1, p1) = renorm_middle(low, high, p);
            let (l2, h2, p2) = renorm_middle(low, high, q);
            l1 == l2 && h1 == h2
        }),
    decreases MAX_VALUE - (high - low),
{
    if low >= QUARTER && high < THREE_QUARTERS {
        lemma_renorm_middle_pending_irrelevant(
            2 * (low - QUARTER),
            2 * (high - QUARTER) + 1,
            p + 1,
            q + 1,
        );
    }
}


/// Number of occurrences of `b` in `s`.
pub open spec fn occ(s: Seq<u8>, b: u8) -> nat
    decreases s.len(),
{
    if s.len() == 0 {
        0
    } else {
        occ(s.drop_last(), b) + (if s.last() == b {
            1nat
        } else {
            0nat
        })
    }
}

/// Sum of the occurrence counts of all byte values below `hi`.
pub open spec fn occ_sum(s: Seq<u8>, hi: int) -> int
    decreases hi,
{
    if hi <= 0 {
        0
    } else {
        occ_sum(s, hi - 1) + occ(s, (hi - 1) as u8)
    }
}

/// Sum of the first `hi` entries of a count table.
pub open spec fn counts_sum(counts: Seq<u64>, hi: int) -> int
    decreases hi,
{
    if hi <= 0 {
        0
    } else {
        counts_sum(counts, hi - 1) + counts[hi - 1]
    }
}

/// Cumulative count of the first `i` symbols of a model.
pub open spec fn prefix_sum_of(symbols: Seq<u8>, counts: Seq<u64>, i: int) -> int
    recommends
        counts.len() == 256,
    decreases i,
{
    if i <= 0 {
        0
    } else {
        prefix_sum_of(symbols, counts, i - 1) + counts[symbols[i - 1] as int]
    }
}

/// A count can never exceed the length of the data it was counted from.
pub proof fn lemma_occ_le_len(s: Seq<u8>, b: u8)
    ensures
        occ(s, b) <= s.len(),
    decreases s.len(),
{
    if s.len() > 0 {
        lemma_occ_le_len(s.drop_last(), b);
    }
}

/// Appending one byte raises exactly that byte's count by one.
pub proof fn lemma_occ_push(s: Seq<u8>, x: u8, b: u8)
    ensures
        occ(s.push(x), b) == occ(s, b) + (if x == b {
            1int
        } else {
            0int
        }),
{
    assert(s.push(x).drop_last() =~= s);
}

/// Appending one byte raises the partial occurrence sum by one exactly when
/// the byte's value lies below the bound.
pub proof fn lemma_occ_sum_push(s: Seq<u8>, x: u8, hi: int)
    requires
        hi <= 256,
    ensures
        occ_sum(s.push(x), hi) == occ_sum(s, hi) + (if (x as int) < hi {
            1int
        } else {
            0int
        }),
    decreases hi,
{
    if hi > 0 {
        lemma_occ_sum_push(s, x, hi - 1);
        lemma_occ_push(s, x, (hi - 1) as u8);
    }
}

/// Every byte of a sequence is counted once in the full occurrence sum.
pub proof fn lemma_occ_sum_total(s: Seq<u8>)
    ensures
        occ_sum(s, 256) == s.len(),
    decreases s.len(),
{
    if s.len() == 0 {
        lemma_occ_sum_zero(s, 256);
    } else {
        lemma_occ_sum_total(s.drop_last());
        assert(s.drop_last().push(s.last()) =~= s);
        lemma_occ_sum_push(s.drop_last(), s.last(), 256);
    }
}

/// The occurrence sum of an empty sequence is zero.
proof fn lemma_occ_sum_zero(s: Seq<u8>, hi: int)
    requires
        s.len() == 0,
    ensures
        occ_sum(s, hi) == 0,
    decreases hi,
{
    if hi > 0 {
        lemma_occ_sum_zero(s, hi - 1);
    }
}

/// Partial occurrence sums grow with the bound.
pub proof fn lemma_occ_sum_monotonic(s: Seq<u8>, a: int, b: int)
    requires
        a <= b,
    ensures
        occ_sum(s, a) <= occ_sum(s, b),
    decreases b - a,
{
    if a < b {
        lemma_occ_sum_monotonic(s, a, b - 1);
    }
}

/// A prefix sum only reads the symbols before its bound, so pushing a new
/// symbol does not change it.
pub proof fn lemma_prefix_sum_push(symbols: Seq<u8>, counts: Seq<u64>, x: u8, i: int)
    requires
        i <= symbols.len(),
    ensures
        prefix_sum_of(symbols.push(x), counts, i) == prefix_sum_of(symbols, counts, i),
    decreases i,
{
    if i > 0 {
        lemma_prefix_sum_push(symbols, counts, x, i - 1);
    }
}

/// Static two-pass frequency model: a per-byte count table with a sorted list
/// of the distinct symbols, built once from the input and immutable after.
pub struct FrequencyModel {
    counts: Vec<u64>,
    total_frequency: u64,
    symbols: Vec<u8>,
}

impl FrequencyModel {
    /// The occurrence count recorded for a byte value.
    pub closed spec fn count_of(self, b: u8) -> u64 {
        self.counts@[b as int]
    }

    /// The sorted distinct symbols of the model.
    pub closed spec fn spec_symbols(self) -> Seq<u8> {
        self.symbols@
    }

    /// The sum of all recorded counts.
    pub closed spec fn spec_total(self) -> u64 {
        self.total_frequency
    }

    /// Cumulative count of the first `i` symbols.
    pub closed spec fn prefix_sum(self, i: int) -> int {
        prefix_sum_of(self.symbols@, self.counts@, i)
    }

    /// Model invariant: 256 count entries; symbols strictly ascending; a byte
    /// is a symbol exactly when its count is positive; the stored total is
    /// the sum of the symbol counts.
    pub closed spec fn wf(self) -> bool {
        &&& self.counts@.len() == 256
        &&& forall|i: int, j: int|
            0 <= i < j < self.symbols@.len() ==> self.symbols@[i] < self.symbols@[j]
        &&& forall|i: int|
            0 <= i < self.symbols@.len() ==> 1 <= self.counts@[#[trigger] self.symbols@[i] as int]
        &&& forall|b: int|
            0 <= b < 256 ==> (1 <= #[trigger] self.counts@[b] <==> self.symbols@.contains(
                b as u8,
            ))
        &&& self.total_frequency == prefix_sum_of(
            self.symbols@,
            self.counts@,
            self.symbols@.len() as int,
        )
        &&& self.total_frequency == counts_sum(self.counts@, 256)
    }

    /// Search for the cumulative interval of symbol `b`, starting at symbol
    /// index `i` with `acc` counts already accumulated.
    spec fn range_search(self, i: int, acc: int, b: u8) -> Option<(int, int)>
        decreases self.symbols@.len() - i,
    {
        if i < 0 || i >= self.symbols@.len() {
            None
        } else if self.symbols@[i] == b {
            Some((acc, acc + self.counts@[b as int]))
        } else {
            self.range_search(i + 1, acc + self.counts@[self.symbols@[i] as int], b)
        }
    }

    /// The cumulative interval assigned to symbol `b`, or `None` when it is
    /// not part of the model.
    pub closed spec fn symbol_range_of(self, b: u8) -> Option<(int, int)> {
        self.range_search(0, 0, b)
    }

    /// Search for the symbol whose cumulative interval contains `v`.
    spec fn value_search(self, i: int, acc: int, v: int) -> Option<(u8, int, int)>
        decreases self.symbols@.len() - i,
    {
        if i < 0 || i >= self.symbols@.len() {
            None
        } else {
            let c = self.counts@[self.symbols@[i] as int];
            if acc <= v < acc + c {
                Some((self.symbols@[i], acc, acc + c))
            } else {
                self.value_search(i + 1, acc + c, v)
            }
        }
    }

    /// The symbol and interval containing the cumulative value `v`, or
    /// `None` when `v` lies past the total.
    pub closed spec fn range_from_value_of(self, v: int) -> Option<(u8, int, int)> {
        self.value_search(0, 0, v)
    }

    /// An empty model: all counts zero.
    pub fn new() -> (m: FrequencyModel)
        ensures
            m.wf(),
            m.spec_total() == 0,
            m.spec_symbols() =~= Seq::<u8>::empty(),
            forall|b: u8| m.count_of(b) == 0,
    {
        let mut counts: Vec<u64> = Vec::new();
        let mut i: usize = 0;
        while i < 256
            invariant
                i <= 256,
                counts@.len() == i,
                forall|k: int| 0 <= k < i ==> counts@[k] == 0,
            decreases 256 - i,
        {
            counts.push(0);
            i = i + 1;
        }
        proof {
            lemma_counts_sum_all_zero(counts@, 256);
        }
        FrequencyModel { counts, total_frequency: 0, symbols: Vec::new() }
    }

    /// Rebuild the sorted symbol list and the total from a count table.
    fn symbols_from_counts(counts: &Vec<u64>) -> (r: (Vec<u8>, u64))
        requires
            counts@.len() == 256,
            counts_sum(counts@, 256) <= u64::MAX,
        ensures
            forall|i: int, j: int| 0 <= i < j < r.0@.len() ==> r.0@[i] < r.0@[j],
            forall|i: int| 0 <= i < r.0@.len() ==> 1 <= counts@[#[trigger] r.0@[i] as int],
            forall|b: int|
                0 <= b < 256 ==> (1 <= #[trigger] counts@[b] <==> r.0@.contains(b as u8)),
            r.1 == prefix_sum_of(r.0@, counts@, r.0@.len() as int),
            r.1 == counts_sum(counts@, 256),
    {
        let mut symbols: Vec<u8> = Vec::new();
        let mut total: u64 = 0;
        let mut b: usize = 0;
        while b < 256
            invariant
                b <= 256,
                counts@.len() == 256,
                counts_sum(counts@, 256) <= u64::MAX,
                forall|i: int, j: int| 0 <= i < j < symbols@.len() ==> symbols@[i] < symbols@[j],
                forall|i: int| 0 <= i < symbols@.len() ==> (#[trigger] symbols@[i] as int) < b,
                forall|i: int|
                    0 <= i < symbols@.len() ==> 1 <= counts@[#[trigger] symbols@[i] as int],
                forall|c: int|
                    0 <= c < b ==> (1 <= #[trigger] counts@[c] <==> symbols@.contains(c as u8)),
                total == prefix_sum_of(symbols@, counts@, symbols@.len() as int),
                total == counts_sum(counts@, b as int),
            decreases 256 - b,
        {
            proof {
                lemma_counts_sum_monotonic(counts@, b as int + 1, 256);
            }
            if counts[b] > 0 {
                let ghost pre = symbols@;
                proof {
                    lemma_prefix_sum_push(symbols@, counts@, b as u8, symbols@.len() as int);
                }
                symbols.push(b as u8);
                total = total + counts[b];
                proof {
                    assert(symbols@ =~= pre.push(b as u8));
                    assert(symbols@[symbols@.len() - 1] == b as u8);
                    assert forall|c: int| 0 <= c < b + 1 implies (1 <= #[trigger] counts@[c]
                        <==> symbols@.contains(c as u8)) by {
                        if c < b {
                            if 1 <= counts@[c] {
                                assert(pre.contains(c as u8));
                                let w = choose|w: int| 0 <= w < pre.len() && pre[w] == c as u8;
                                assert(symbols@[w] == c as u8);
                            } else {
                                if symbols@.contains(c as u8) {
                                    let w = choose|w: int|
                                        0 <= w < symbols@.len() && symbols@[w] == c as u8;
                                    assert(w < pre.len());
                                    assert(pre[w] == c as u8);
                                }
                            }
                        } else {
                            assert(symbols@[symbols@.len() - 1] == c as u8);
                        }
                    }
                }
            } else {
                proof {
                    assert forall|c: int| 0 <= c < b + 1 implies (1 <= #[trigger] counts@[c]
                        <==> symbols@.contains(c as u8)) by {}
                }
            }
            b = b + 1;
        }
        (symbols, total)
    }

    /// Build the model from input data in one pass: per-byte occurrence
    /// counts, the sorted distinct symbol list, and the total count, which
    /// equals the input length.
    pub fn build_from_data(&mut self, data: &[u8])
        ensures
            final(self).wf(),
            forall|b: u8| final(self).count_of(b) == occ(data@, b),
            final(self).spec_total() == data@.len(),
    {
        let mut counts: Vec<u64> = Vec::new();
        let mut i: usize = 0;
        while i < 256
            invariant
                i <= 256,
                counts@.len() == i,
                forall|k: int| 0 <= k < i ==> counts@[k] == 0,
            decreases 256 - i,
        {
            counts.push(0);
            i = i + 1;
        }
        proof {
            assert forall|b: u8| counts@[b as int] == occ(data@.take(0), b) by {
                assert(data@.take(0) =~= Seq::<u8>::empty());
            }
        }
        let n = data.len();
        let mut p: usize = 0;
        while p < n
            invariant
                p <= n,
                n == data@.len(),
                counts@.len() == 256,
                forall|b: u8| counts@[b as int] == occ(data@.take(p as int), b),
            decreases n - p,
        {
            let byte = data[p];
            proof {
                assert(data@.take(p as int).push(data@[p as int]) =~= data@.take(p as int + 1));
                assert forall|b: u8| occ(data@.take(p as int + 1), b) == occ(
                    data@.take(p as int),
                    b,
                ) + (if data@[p as int] == b {
                    1int
                } else {
                    0int
                }) by {
                    lemma_occ_push(data@.take(p as int), data@[p as int], b);
                }
                lemma_occ_le_len(data@.take(p as int), data@[p as int]);
            }
            let c = counts[byte as usize];
            counts.set(byte as usize, c + 1);
            p = p + 1;
        }
        proof {
            assert(data@.take(n as int) =~= data@);
            lemma_occ_sum_total(data@);
            lemma_counts_sum_equals_occ_sum(counts@, data@, 256);
        }
        let (symbols, total) = Self::symbols_from_counts(&counts);
        self.counts = counts;
        self.symbols = symbols;
        self.total_frequency = total;
    }

    /// The sum of all symbol counts.
    pub fn total_frequency(&self) -> (r: u64)
        ensures
            r == self.spec_total(),
    {
        self.total_frequency
    }

    /// The cumulative interval `[low, high)` of a symbol, or `None` when the
    /// symbol does not occur in the model.
    pub fn get_symbol_range(&self, symbol: u8) -> (r: Option<(u64, u64)>)
        requires
            self.wf(),
        ensures
            match r {
                Some((lo, hi)) => {
                    &&& self.symbol_range_of(symbol) == Some((lo as int, hi as int))
                    &&& lo < hi <= self.spec_total()
                    &&& hi == lo + self.count_of(symbol)
                },
                None => self.symbol_range_of(symbol) is None,
            },
    {
        let mut cumulative: u64 = 0;
        let mut i: usize = 0;
        let len = self.symbols.len();
        proof {
            lemma_prefix_plus_suffix(self.symbols@, self.counts@, 0);
            lemma_suffix_sum_nonneg(self.symbols@, self.counts@, 0);
        }
        while i < len
            invariant
                self.wf(),
                i <= len,
                len == self.symbols@.len(),
                cumulative == self.prefix_sum(i as int),
                self.symbol_range_of(symbol) == self.range_search(
                    i as int,
                    cumulative as int,
                    symbol,
                ),
                cumulative <= self.spec_total(),
                cumulative as int + suffix_sum(self.symbols@, self.counts@, i as int)
                    == self.spec_total(),
            decreases len - i,
        {
            let s = self.symbols[i];
            let freq = self.counts[s as usize];
            proof {
                lemma_suffix_sum_step(self.symbols@, self.counts@, i as int);
                lemma_suffix_sum_nonneg(self.symbols@, self.counts@, i as int + 1);
            }
            if s == symbol {
                return Some((cumulative, cumulative + freq));
            }
            cumulative = cumulative + freq;
            i = i + 1;
        }
        None
    }

    /// The symbol whose cumulative interval contains `value`, without the
    /// interval itself.
    pub fn get_symbol_from_value(&self, value: u64) -> (r: Option<u8>)
        requires
            self.wf(),
        ensures
            match r {
                Some(s) => self.range_from_value_of(value as int) is Some
                    && self.range_from_value_of(value as int).unwrap().0 == s,
                None => self.range_from_value_of(value as int) is None,
            },
    {
        match self.get_range_from_value(value) {
            Some((s, _, _)) => Some(s),
            None => None,
        }
    }

    /// The symbol and cumulative interval containing `value`.  Exactly the
    /// values below the total find a symbol; anything at or past the total is
    /// a sign of corrupt coding state and yields `None`.
    pub fn get_range_from_value(&self, value: u64) -> (r: Option<(u8, u64, u64)>)
        requires
            self.wf(),
        ensures
            match r {
                Some((s, lo, hi)) => {
                    &&& self.range_from_value_of(value as int) == Some((
                        s,
                        lo as int,
                        hi as int,
                    ))
                    &&& lo <= value < hi <= self.spec_total()
                    &&& hi == lo + self.count_of(s)
                    &&& 1 <= self.count_of(s)
                },
                None => self.range_from_value_of(value as int) is None,
            },
            (r is None) <==> (value >= self.spec_total()),
    {
        let mut cumulative: u64 = 0;
        let mut i: usize = 0;
        let len = self.symbols.len();
        proof {
            lemma_prefix_plus_suffix(self.symbols@, self.counts@, 0);
            lemma_suffix_sum_nonneg(self.symbols@, self.counts@, 0);
        }
        while i < len
            invariant
                self.wf(),
                i <= len,
                len == self.symbols@.len(),
                cumulative == self.prefix_sum(i as int),
                value >= cumulative,
                self.range_from_value_of(value as int) == self.value_search(
                    i as int,
                    cumulative as int,
                    value as int,
                ),
                cumulative <= self.spec_total(),
                cumulative as int + suffix_sum(self.symbols@, self.counts@, i as int)
                    == self.spec_total(),
            decreases len - i,
        {
            let s = self.symbols[i];
            let freq = self.counts[s as usize];
            proof {
                lemma_suffix_sum_step(self.symbols@, self.counts@, i as int);
                lemma_suffix_sum_nonneg(self.symbols@, self.counts@, i as int + 1);
            }
            if value < cumulative + freq {
                return Some((s, cumulative, cumulative + freq));
            }
            cumulative = cumulative + freq;
            i = i + 1;
        }
        None
    }
}

/// Sum of the symbol counts from index `i` on.
pub open spec fn suffix_sum(symbols: Seq<u8>, counts: Seq<u64>, i: int) -> int
    decreases symbols.len() - i,
{
    if i < 0 || i >= symbols.len() {
        0
    } else {
        counts[symbols[i] as int] + suffix_sum(symbols, counts, i + 1)
    }
}

/// One step of the suffix sum.
proof fn lemma_suffix_sum_step(symbols: Seq<u8>, counts: Seq<u64>, i: int)
    requires
        0 <= i < symbols.len(),
    ensures
        suffix_sum(symbols, counts, i) == counts[symbols[i] as int] + suffix_sum(
            symbols,
            counts,
            i + 1,
        ),
{
}

/// A prefix sum and the matching suffix sum together cover every symbol.
proof fn lemma_prefix_plus_suffix(symbols: Seq<u8>, counts: Seq<u64>, i: int)
    requires
        0 <= i <= symbols.len(),
    ensures
        prefix_sum_of(symbols, counts, i) + suffix_sum(symbols, counts, i) == prefix_sum_of(
            symbols,
            counts,
            symbols.len() as int,
        ),
    decreases symbols.len() - i,
{
    if i < symbols.len() {
        lemma_prefix_plus_suffix(symbols, counts, i + 1);
    }
}

/// Suffix sums of nonnegative counts are nonnegative.
proof fn lemma_suffix_sum_nonneg(symbols: Seq<u8>, counts: Seq<u64>, i: int)
    ensures
        suffix_sum(symbols, counts, i) >= 0,
    decreases symbols.len() - i,
{
    if 0 <= i < symbols.len() {
        lemma_suffix_sum_nonneg(symbols, counts, i + 1);
    }
}

/// Partial count sums grow with the bound.
proof fn lemma_counts_sum_monotonic(counts: Seq<u64>, a: int, b: int)
    requires
        a <= b,
    ensures
        counts_sum(counts, a) <= counts_sum(counts, b),
    decreases b - a,
{
    if a < b {
        lemma_counts_sum_monotonic(counts, a, b - 1);
    }
}

/// When every count equals the matching occurrence count, the partial sums
/// agree as well.
proof fn lemma_counts_sum_equals_occ_sum(counts: Seq<u64>, data: Seq<u8>, hi: int)
    requires
        counts.len() == 256,
        0 <= hi <= 256,
        forall|b: u8| counts[b as int] == occ(data, b),
    ensures
        counts_sum(counts, hi) == occ_sum(data, hi),
    decreases hi,
{
    if hi > 0 {
        lemma_counts_sum_equals_occ_sum(counts, data, hi - 1);
    }
}


/// The serialized form of a count table: the 256 counts in order, each as 8
/// little-endian bytes.
pub open spec fn counts_bytes_upto(counts: Seq<u64>, b: int) -> Seq<u8>
    decreases b,
{
    if b <= 0 {
        Seq::empty()
    } else {
        counts_bytes_upto(counts, b - 1) + vstd::bytes::spec_u64_to_le_bytes(counts[b - 1])
    }
}

/// The count table read back from a 2048-byte serialization.
pub open spec fn decoded_counts(data: Seq<u8>) -> Seq<u64> {
    Seq::new(256, |b: int| vstd::bytes::spec_u64_from_le_bytes(data.subrange(8 * b, 8 * b + 8)))
}

/// Serialized count tables have 8 bytes per entry.
pub proof fn lemma_counts_bytes_len(counts: Seq<u64>, b: int)
    requires
        0 <= b,
    ensures
        counts_bytes_upto(counts, b).len() == 8 * b,
    decreases b,
{
    if b > 0 {
        lemma_counts_bytes_len(counts, b - 1);
        vstd::bytes::lemma_auto_spec_u64_to_from_le_bytes();
    }
}

/// Each 8-byte slice of a serialized count table is the encoding of the
/// matching entry.
pub proof fn lemma_counts_bytes_slice(counts: Seq<u64>, b: int, k: int)
    requires
        0 <= k < b,
    ensures
        counts_bytes_upto(counts, b).subrange(8 * k, 8 * k + 8)
            == vstd::bytes::spec_u64_to_le_bytes(counts[k]),
    decreases b,
{
    lemma_counts_bytes_len(counts, b);
    vstd::bytes::lemma_auto_spec_u64_to_from_le_bytes();
    if k == b - 1 {
        lemma_counts_bytes_len(counts, b - 1);
        assert(counts_bytes_upto(counts, b).subrange(8 * k, 8 * k + 8)
            =~= vstd::bytes::spec_u64_to_le_bytes(counts[k]));
    } else {
        lemma_counts_bytes_slice(counts, b - 1, k);
        lemma_counts_bytes_len(counts, b - 1);
        assert(counts_bytes_upto(counts, b).subrange(8 * k, 8 * k + 8)
            =~= counts_bytes_upto(counts, b - 1).subrange(8 * k, 8 * k + 8));
    }
}

impl FrequencyModel {
    /// The byte serialization of the model: the full count table, 8
    /// little-endian bytes per byte value.
    pub closed spec fn model_bytes(self) -> Seq<u8> {
        counts_bytes_upto(self.counts@, 256)
    }

    /// Serialize the model for storage alongside the compressed stream.
    pub fn serialize(&self) -> (r: Vec<u8>)
        requires
            self.wf(),
        ensures
            r@ == self.model_bytes(),
            r@.len() == 2048,
    {
        let mut out: Vec<u8> = Vec::new();
        let mut b: usize = 0;
        while b < 256
            invariant
                b <= 256,
                self.counts@.len() == 256,
                out@ == counts_bytes_upto(self.counts@, b as int),
                out@.len() == 8 * b,
            decreases 256 - b,
        {
            let mut chunk = vstd::bytes::u64_to_le_bytes(self.counts[b]);
            out.append(&mut chunk);
            b = b + 1;
        }
        proof {
            lemma_counts_bytes_len(self.counts@, 256);
        }
        out
    }

    /// Parse a serialized model.  Succeeds exactly on a 2048-byte count
    /// table whose counts sum within range; the symbols and total are rebuilt
    /// from the counts.
    pub fn deserialize(data: &[u8]) -> (r: Result<FrequencyModel, CodecError>)
        ensures
            match r {
                Ok(m) => {
                    &&& m.wf()
                    &&& data@.len() == 2048
                    &&& m.model_bytes() == data@
                    &&& forall|b: int|
                        0 <= b < 256 ==> m.count_of(b as u8) == decoded_counts(data@)[b]
                    &&& m.spec_total() == counts_sum(decoded_counts(data@), 256)
                },
                Err(e) => {
                    &&& (data@.len() != 2048 || counts_sum(decoded_counts(data@), 256)
                        > u64::MAX)
                    &&& (e is InvalidFormat <==> data@.len() != 2048)
                },
            },
    {
        if data.len() != 2048 {
            return Err(CodecError::InvalidFormat(String::new()));
        }
        let mut counts: Vec<u64> = Vec::new();
        let mut total: u64 = 0;
        let mut b: usize = 0;
        while b < 256
            invariant
                b <= 256,
                data@.len() == 2048,
                counts@.len() == b,
                forall|k: int| 0 <= k < b ==> counts@[k] == decoded_counts(data@)[k],
                total == counts_sum(counts@, b as int),
                total == counts_sum(decoded_counts(data@), b as int),
            decreases 256 - b,
        {
            let chunk = vstd::slice::slice_subrange(data, 8 * b, 8 * b + 8);
            let c = vstd::bytes::u64_from_le_bytes(chunk);
            if c > u64::MAX - total {
                proof {
                    lemma_counts_sum_nonneg_tail(decoded_counts(data@), b as int + 1, 256);
                }
                return Err(CodecError::CorruptedData(String::new()));
            }
            proof {
                lemma_counts_sum_push_stable(counts@, c, b as int);
            }
            counts.push(c);
            total = total + c;
            b = b + 1;
        }
        let (symbols, symtotal) = Self::symbols_from_counts(&counts);
        let m = FrequencyModel { counts, total_frequency: symtotal, symbols };
        proof {
            assert(m.counts@ =~= decoded_counts(data@));
            lemma_decoded_counts_reconstruct(m.counts@, data@);
        }
        Ok(m)
    }
}

/// The sum of an all-zero count table is zero.
proof fn lemma_counts_sum_all_zero(counts: Seq<u64>, hi: int)
    requires
        0 <= hi <= counts.len(),
        forall|k: int| 0 <= k < counts.len() ==> counts[k] == 0,
    ensures
        counts_sum(counts, hi) == 0,
    decreases hi,
{
    if hi > 0 {
        lemma_counts_sum_all_zero(counts, hi - 1);
    }
}

/// A partial count sum does not change when entries are appended past it.
proof fn lemma_counts_sum_push_stable(counts: Seq<u64>, c: u64, k: int)
    requires
        0 <= k <= counts.len(),
    ensures
        counts_sum(counts.push(c), k) == counts_sum(counts, k),
    decreases k,
{
    if k > 0 {
        lemma_counts_sum_push_stable(counts, c, k - 1);
    }
}

/// Count sums only grow when later entries are added.
proof fn lemma_counts_sum_nonneg_tail(counts: Seq<u64>, a: int, b: int)
    requires
        a <= b,
        b <= counts.len(),
        0 <= a,
    ensures
        counts_sum(counts, a) <= counts_sum(counts, b),
    decreases b - a,
{
    if a < b {
        lemma_counts_sum_nonneg_tail(counts, a, b - 1);
    }
}

/// A count table decoded from 2048 bytes re-serializes to those same bytes.
proof fn lemma_decoded_counts_reconstruct(counts: Seq<u64>, data: Seq<u8>)
    requires
        data.len() == 2048,
        counts.len() == 256,
        forall|k: int| 0 <= k < 256 ==> counts[k] == decoded_counts(data)[k],
    ensures
        counts_bytes_upto(counts, 256) == data,
{
    vstd::bytes::lemma_auto_spec_u64_to_from_le_bytes();
    lemma_counts_bytes_len(counts, 256);
    assert forall|i: int| 0 <= i < 2048 implies counts_bytes_upto(counts, 256)[i] == data[i] by {
        let k = i / 8;
        vstd::arithmetic::div_mod::lemma_fundamental_div_mod(i, 8);
        lemma_counts_bytes_slice(counts, 256, k);
        assert(counts[k] == vstd::bytes::spec_u64_from_le_bytes(data.subrange(8 * k, 8 * k + 8)));
        assert(vstd::bytes::spec_u64_to_le_bytes(counts[k]) == data.subrange(8 * k, 8 * k + 8));
        assert(counts_bytes_upto(counts, 256).subrange(8 * k, 8 * k + 8)[i - 8 * k]
            == counts_bytes_upto(counts, 256)[i]);
        assert(data.subrange(8 * k, 8 * k + 8)[i - 8 * k] == data[i]);
    }
    assert(counts_bytes_upto(counts, 256) =~= data);
}

/// Serializing a well-formed model yields 2048 bytes that decode back to the
/// same counts, within range, so parsing them succeeds and restores the
/// model's content exactly.
pub proof fn lemma_model_serialization_round_trip(m: FrequencyModel)
    requires
        m.wf(),
    ensures
        m.model_bytes().len() == 2048,
        forall|b: int| 0 <= b < 256 ==> decoded_counts(m.model_bytes())[b] == m.count_of(b as u8),
        counts_sum(decoded_counts(m.model_bytes()), 256) == m.spec_total(),
{
    lemma_counts_bytes_len(counts_of_model(m), 256);
    vstd::bytes::lemma_auto_spec_u64_to_from_le_bytes();
    assert forall|b: int| 0 <= b < 256 implies decoded_counts(m.model_bytes())[b] == m.count_of(
        b as u8,
    ) by {
        lemma_counts_bytes_slice(counts_of_model(m), 256, b);
    }
    assert(decoded_counts(m.model_bytes()) =~= counts_of_model(m));
}

/// The raw count table of a model.
pub closed spec fn counts_of_model(m: FrequencyModel) -> Seq<u64> {
    m.counts@
}

/// Looking an interval up by cumulative value inverts the interval that
/// `get_symbol_range` assigns: any value inside a symbol's interval finds
/// exactly that symbol and that interval again.
pub proof fn lemma_model_lookup_inverts(m: FrequencyModel, b: u8, v: int)
    requires
        m.wf(),
        m.symbol_range_of(b) is Some,
        m.symbol_range_of(b).unwrap().0 <= v < m.symbol_range_of(b).unwrap().1,
    ensures
        m.range_from_value_of(v) == Some(
            (b, m.symbol_range_of(b).unwrap().0, m.symbol_range_of(b).unwrap().1),
        ),
{
    lemma_range_search_lower_bound(m, 0, 0, b);
    lemma_search_agree(m, 0, 0, b, v);
}

/// Induction core of the lookup inversion: the two searches walk the same
/// accumulated intervals in the same order.
proof fn lemma_search_agree(m: FrequencyModel, i: int, acc: int, b: u8, v: int)
    requires
        m.wf(),
        0 <= i <= m.spec_symbols().len(),
        m.range_search(i, acc, b) is Some,
        m.range_search(i, acc, b).unwrap().0 <= v < m.range_search(i, acc, b).unwrap().1,
        acc <= v,
    ensures
        m.value_search(i, acc, v) == Some(
            (b, m.range_search(i, acc, b).unwrap().0, m.range_search(i, acc, b).unwrap().1),
        ),
    decreases m.spec_symbols().len() - i,
{
    let syms = m.spec_symbols();
    if syms[i] == b {
    } else {
        let c = counts_of_model(m)[syms[i] as int];
        lemma_range_search_lower_bound(m, i + 1, acc + c, b);
        lemma_search_agree(m, i + 1, acc + c, b, v);
    }
}

/// Intervals found by the range search start at or after the accumulator.
proof fn lemma_range_search_lower_bound(m: FrequencyModel, i: int, acc: int, b: u8)
    requires
        m.wf(),
        m.range_search(i, acc, b) is Some,
    ensures
        m.range_search(i, acc, b).unwrap().0 >= acc,
    decreases m.spec_symbols().len() - i,
{
    let syms = m.spec_symbols();
    if 0 <= i < syms.len() {
        if syms[i] == b {
        } else {
            let c = counts_of_model(m)[syms[i] as int];
            lemma_range_search_lower_bound(m, i + 1, acc + c, b);
            assert(c >= 0);
        }
    }
}


/// A byte read from a sequence occurs in it at least once.
pub proof fn lemma_occ_index_positive(s: Seq<u8>, i: int)
    requires
        0 <= i < s.len(),
    ensures
        occ(s, s[i]) >= 1,
    decreases s.len(),
{
    if i == s.len() - 1 {
    } else {
        assert(s.drop_last()[i] == s[i]);
        lemma_occ_index_positive(s.drop_last(), i);
    }
}

/// Every symbol with a positive count is assigned a cumulative interval.
pub proof fn lemma_contained_symbol_found(m: FrequencyModel, b: u8)
    requires
        m.wf(),
        m.count_of(b) >= 1,
    ensures
        m.symbol_range_of(b) is Some,
{
    assert(m.spec_symbols().contains(b));
    let w = choose|w: int| 0 <= w < m.spec_symbols().len() && m.spec_symbols()[w] == b;
    lemma_range_search_reaches(m, 0, 0, b, w);
}

/// The range search visits every later symbol index.
proof fn lemma_range_search_reaches(m: FrequencyModel, i: int, acc: int, b: u8, w: int)
    requires
        m.wf(),
        0 <= i <= w < m.spec_symbols().len(),
        m.spec_symbols()[w] == b,
    ensures
        m.range_search(i, acc, b) is Some,
    decreases w - i,
{
    if m.spec_symbols()[i] == b {
    } else {
        lemma_range_search_reaches(
            m,
            i + 1,
            acc + counts_of_model(m)[m.spec_symbols()[i] as int],
            b,
            w,
        );
    }
}

/// The raw count table of a well-formed model has one entry per byte value,
/// each the count the model records, and its serialization is the table's.
pub proof fn lemma_counts_of_model(m: FrequencyModel)
    requires
        m.wf(),
    ensures
        counts_of_model(m).len() == 256,
        forall|b: int| 0 <= b < 256 ==> counts_of_model(m)[b] == m.count_of(b as u8),
        m.model_bytes() == counts_bytes_upto(counts_of_model(m), 256),
{
}


/// The renormalized bounds stay ordered and inside the precision range.
pub proof fn lemma_renorm_top_in_range(low: int, high: int, pending: int)
    requires
        0 <= low <= high <= MAX_VALUE,
    ensures
        ({
            let (l, h, p) = renorm_top(low, high, pending);
            0 <= l <= h <= MAX_VALUE
        }),
    decreases MAX_VALUE - (high - low),
{
    if high < HALF {
        lemma_renorm_top_in_range(2 * low, 2 * high + 1, 0);
    } else if low >= HALF {
        lemma_renorm_top_in_range(2 * (low - HALF), 2 * (high - HALF) + 1, 0);
    }
}

/// The bounds computed by the top-bit renormalization do not depend on the
/// incoming pending-bit count.
proof fn lemma_renorm_top_pending_irrelevant(low: int, high: int, p: int, q: int)
    requires
        0 <= low <= high <= MAX_VALUE,
    ensures
        ({
            let (l1, h1, p1) = renorm_top(low, high, p);
            let (l2, h2, p2) = renorm_top(low, high, q);
            l1 == l2 && h1 == h2
        }),
{
}

/// Encoder and decoder are mirror images: for the same symbol interval the
/// decoder's bound transition, which starts with no pending bits, computes
/// exactly the bounds the encoder's transition computes, whatever underflow
/// bits the encoder is still holding.
pub proof fn lemma_encoder_decoder_mirror(
    low: int,
    high: int,
    pending: int,
    symbol_low: int,
    symbol_high: int,
    total: int,
)
    requires
        0 <= low <= high <= MAX_VALUE,
        high - low >= QUARTER,
        0 <= symbol_low < symbol_high <= total,
        1 <= total <= QUARTER,
    ensures
        ({
            let (le, he, pe) = coder_transition(
                low,
                high,
                pending,
                symbol_low,
                symbol_high,
                total,
            );
            let (ld, hd, pd) = coder_transition(low, high, 0, symbol_low, symbol_high, total);
            le == ld && he == hd
        }),
{
    lemma_narrow_bounds(low, high, symbol_low, symbol_high, total);
    let nl = narrow_low(low, high, symbol_low, total);
    let nh = narrow_high(low, high, symbol_high, total);
    lemma_renorm_top_pending_irrelevant(nl, nh, pending, 0);
    lemma_renorm_top_in_range(nl, nh, pending);
    let (l1, h1, p1) = renorm_top(nl, nh, pending);
    let (l1b, h1b, p1b) = renorm_top(nl, nh, 0);
    lemma_renorm_middle_pending_irrelevant(l1, h1, p1, p1b);
}


/// Shifting one more bit into a partial byte appends that bit to its bit
/// string.
proof fn lemma_partial_bits_shift(b: u8, c: int, v: u8)
    requires
        0 <= c < 8,
        (b as nat) < vstd::arithmetic::power2::pow2(c as nat),
        v <= 1,
    ensures
        partial_bits((b * 2 + v) as u8, c + 1) == partial_bits(b, c).push(v == 1),
    decreases c,
{
    assert(vstd::arithmetic::power2::pow2(7) == 128) by {
        vstd::arithmetic::power2::lemma2_to64();
    }
    if c < 7 {
        vstd::arithmetic::power2::lemma_pow2_strictly_increases(c as nat, 7);
    }
    assert(b < 128);
    let nb = (b * 2 + v) as u8;
    assert(nb as int == 2 * (b as int) + v as int);
    assert forall|i: int| 0 <= i < c + 1 implies #[trigger] partial_bits(nb, c + 1)[i]
        == partial_bits(b, c).push(v == 1)[i] by {
        vstd::arithmetic::power2::lemma_pow2_pos((c - i) as nat);
        if i < c {
            vstd::arithmetic::power2::lemma_pow2_unfold((c - i) as nat);
            vstd::arithmetic::power2::lemma_pow2_pos((c - 1 - i) as nat);
            vstd::arithmetic::div_mod::lemma_div_denominator(
                nb as int,
                2,
                vstd::arithmetic::power2::pow2((c - 1 - i) as nat) as int,
            );
            assert(nb as int / 2 == b as int);
            assert(2 * (vstd::arithmetic::power2::pow2((c - 1 - i) as nat) as int)
                == vstd::arithmetic::power2::pow2((c - i) as nat) as int);
        } else {
            assert(vstd::arithmetic::power2::pow2(0) == 1) by {
                vstd::arithmetic::power2::lemma2_to64();
            }
            vstd::arithmetic::div_mod::lemma_div_basics(nb as int);
            assert(nb as int % 2 == v as int);
        }
    }
    assert(partial_bits(nb, c + 1) =~= partial_bits(b, c).push(v == 1));
}

/// A full byte's bit string is its partial-bit string of width eight.
proof fn lemma_byte_bits_is_partial8(b: u8)
    ensures
        byte_bits(b) == partial_bits(b, 8),
{
    assert(byte_bits(b) =~= partial_bits(b, 8));
}

/// Appending a byte appends its eight bits.
proof fn lemma_bytes_bits_push(bs: Seq<u8>, b: u8)
    ensures
        bytes_bits(bs.push(b)) == bytes_bits(bs) + byte_bits(b),
    decreases bs.len(),
{
    if bs.len() == 0 {
        assert(bs.push(b)[0] == b);
        assert(bs.push(b).drop_first() =~= Seq::<u8>::empty());
        assert(bytes_bits(bs.push(b).drop_first()) == Seq::<bool>::empty());
        assert(bytes_bits(bs) == Seq::<bool>::empty());
        assert(bytes_bits(bs.push(b)) =~= bytes_bits(bs) + byte_bits(b));
    } else {
        lemma_bytes_bits_push(bs.drop_first(), b);
        assert(bs.push(b).drop_first() =~= bs.drop_first().push(b));
        assert(bytes_bits(bs.push(b).drop_first()) == bytes_bits(bs.drop_first().push(b)));
        assert(bs.push(b)[0] == bs[0]);
        assert(bytes_bits(bs.push(b)) =~= bytes_bits(bs) + byte_bits(b));
    }
}

/// Prefixes of a partial byte's bit string take their value from the high
/// bits of the byte.
proof fn lemma_bits_value_partial_take(x: u8, n: int, k: int)
    requires
        0 <= k <= n <= 8,
        (x as nat) < vstd::arithmetic::power2::pow2(n as nat),
    ensures
        bits_value(partial_bits(x, n).take(k)) == (x as int) / (
        vstd::arithmetic::power2::pow2((n - k) as nat) as int),
    decreases k,
{
    vstd::arithmetic::power2::lemma_pow2_pos((n - k) as nat);
    if k == 0 {
        assert(partial_bits(x, n).take(0) =~= Seq::<bool>::empty());
        vstd::arithmetic::div_mod::lemma_basic_div(
            x as int,
            vstd::arithmetic::power2::pow2(n as nat) as int,
        );
    } else {
        lemma_bits_value_partial_take(x, n, k - 1);
        let p = partial_bits(x, n);
        assert(p.take(k).drop_last() =~= p.take(k - 1));
        assert(p.take(k).last() == p[k - 1]);
        let q = (x as int) / (vstd::arithmetic::power2::pow2((n - k) as nat) as int);
        vstd::arithmetic::power2::lemma_pow2_unfold((n - k + 1) as nat);
        vstd::arithmetic::power2::lemma_pow2_pos((n - k) as nat);
        vstd::arithmetic::div_mod::lemma_div_denominator(
            x as int,
            vstd::arithmetic::power2::pow2((n - k) as nat) as int,
            2,
        );
        assert(vstd::arithmetic::power2::pow2((n - k) as nat) as int * 2
            == vstd::arithmetic::power2::pow2((n - k + 1) as nat) as int);
        assert(q / 2 == (x as int) / (vstd::arithmetic::power2::pow2((n - (k - 1)) as nat)
            as int));
        vstd::arithmetic::div_mod::lemma_fundamental_div_mod(q, 2);
        assert(bits_value(p.take(k)) == 2 * bits_value(p.take(k - 1)) + (if p[k - 1] {
            1int
        } else {
            0int
        }));
    }
}

/// The bit string of a partial byte values back to the byte.
proof fn lemma_bits_value_partial(x: u8, n: int)
    requires
        0 <= n <= 8,
        (x as nat) < vstd::arithmetic::power2::pow2(n as nat),
    ensures
        bits_value(partial_bits(x, n)) == x,
{
    lemma_bits_value_partial_take(x, n, n);
    assert(partial_bits(x, n).take(n) =~= partial_bits(x, n));
    vstd::arithmetic::div_mod::lemma_div_basics(x as int);
    assert(vstd::arithmetic::power2::pow2(0) == 1) by {
        vstd::arithmetic::power2::lemma2_to64();
    }
}

/// The bit string of a full byte values back to the byte.
proof fn lemma_bits_value_byte(b: u8)
    ensures
        bits_value(byte_bits(b)) == b,
{
    lemma_byte_bits_is_partial8(b);
    assert(vstd::arithmetic::power2::pow2(8) == 256) by {
        vstd::arithmetic::power2::lemma2_to64();
    }
    lemma_bits_value_partial(b, 8);
}

/// Packing splits off whole leading bytes unchanged.
proof fn lemma_pack_bytes_prefix(bs: Seq<u8>, tail: Seq<bool>)
    requires
        tail.len() < 8,
    ensures
        pack_bits(bytes_bits(bs) + tail) == bs + pack_bits(tail),
    decreases bs.len(),
{
    if bs.len() == 0 {
        assert(bytes_bits(bs) + tail =~= tail);
        assert(bs + pack_bits(tail) =~= pack_bits(tail));
    } else {
        let all = bytes_bits(bs) + tail;
        let rest = bytes_bits(bs.drop_first()) + tail;
        assert(all.len() >= 8) by {
            lemma_bytes_bits_len(bs);
        }
        assert(all.take(8) =~= byte_bits(bs[0]));
        assert(all.skip(8) =~= rest);
        lemma_bits_value_byte(bs[0]);
        lemma_pack_bytes_prefix(bs.drop_first(), tail);
        assert(pack_bits(all) =~= bs + pack_bits(tail));
    }
}

/// A byte string has eight bits per byte.
proof fn lemma_bytes_bits_len(bs: Seq<u8>)
    ensures
        bytes_bits(bs).len() == 8 * bs.len(),
    decreases bs.len(),
{
    if bs.len() > 0 {
        lemma_bytes_bits_len(bs.drop_first());
    }
}


/// The cumulative-value lookup agrees with the interval assignment the
/// other way around: whatever symbol and interval a value finds, that is
/// exactly the interval `get_symbol_range` assigns to the symbol.
pub proof fn lemma_model_lookup_consistent(m: FrequencyModel, v: int)
    requires
        m.wf(),
        m.range_from_value_of(v) is Some,
    ensures
        ({
            let (s, lo, hi) = m.range_from_value_of(v).unwrap();
            m.symbol_range_of(s) == Some((lo, hi))
        }),
{
    lemma_value_search_consistent(m, 0, 0, v);
}

/// Induction core: the value search and the range search accumulate the
/// same intervals, so a found symbol's interval matches its assignment.
proof fn lemma_value_search_consistent(m: FrequencyModel, i: int, acc: int, v: int)
    requires
        m.wf(),
        0 <= i <= m.spec_symbols().len(),
        m.value_search(i, acc, v) is Some,
    ensures
        ({
            let (s, lo, hi) = m.value_search(i, acc, v).unwrap();
            m.range_search(i, acc, s) == Some((lo, hi))
        }),
    decreases m.spec_symbols().len() - i,
{
    let syms = m.spec_symbols();
    let c = counts_of_model(m)[syms[i] as int];
    if acc <= v < acc + c {
    } else {
        lemma_value_search_consistent(m, i + 1, acc + c, v);
        let (s, lo, hi) = m.value_search(i + 1, acc + c, v).unwrap();
        if syms[i] == s {
            lemma_value_search_lower_bound(m, i + 1, acc + c, v);
            let j = choose|j: int|
                i + 1 <= j < syms.len() && #[trigger] syms[j] == s;
            assert(syms[i] < syms[j]);
            assert(false);
        }
    }
}

/// Intervals found by the value search start at or after the accumulator.
proof fn lemma_value_search_lower_bound(m: FrequencyModel, i: int, acc: int, v: int)
    requires
        m.wf(),
        m.value_search(i, acc, v) is Some,
    ensures
        m.value_search(i, acc, v).unwrap().1 >= acc,
        v >= acc,
        exists|j: int|
            i <= j < m.spec_symbols().len() && #[trigger] m.spec_symbols()[j]
                == m.value_search(i, acc, v).unwrap().0,
    decreases m.spec_symbols().len() - i,
{
    let syms = m.spec_symbols();
    if 0 <= i < syms.len() {
        let c = counts_of_model(m)[syms[i] as int];
        if acc <= v < acc + c {
            assert(syms[i] == m.value_search(i, acc, v).unwrap().0);
        } else {
            lemma_value_search_lower_bound(m, i + 1, acc + c, v);
        }
    }
}


/// Symbol search directly over a 256-entry count table: the interval of
/// each byte value is its cumulative range; zero-count bytes have empty
/// intervals and can never match.
pub open spec fn counts_search(counts: Seq<u64>, b: int, acc: int, v: int) -> Option<
    (u8, int, int),
>
    recommends
        counts.len() == 256,
    decreases 256 - b,
{
    if b < 0 || b >= 256 {
        None
    } else {
        let c = counts[b] as int;
        if acc <= v < acc + c {
            Some((b as u8, acc, acc + c))
        } else {
            counts_search(counts, b + 1, acc + c, v)
        }
    }
}

/// A well-formed model's value lookup equals the search over its raw count
/// table: the sorted symbol list walks exactly the byte values with
/// positive counts, in order.
pub proof fn lemma_lookup_matches_counts(m: FrequencyModel, counts: Seq<u64>, v: int)
    requires
        m.wf(),
        counts.len() == 256,
        forall|b: int| 0 <= b < 256 ==> counts[b] == m.count_of(b as u8),
    ensures
        m.range_from_value_of(v) == counts_search(counts, 0, 0, v),
{
    lemma_search_bridge(m, counts, 0, 0, 0, v);
}

/// Induction core of the count-table bridge: walking the byte values from
/// `b` visits exactly the symbols from index `i` on.
proof fn lemma_search_bridge(m: FrequencyModel, counts: Seq<u64>, b: int, i: int, acc: int, v: int)
    requires
        m.wf(),
        counts.len() == 256,
        forall|k: int| 0 <= k < 256 ==> counts[k] == m.count_of(k as u8),
        0 <= b <= 256,
        0 <= i <= m.spec_symbols().len(),
        forall|j: int| 0 <= j < i ==> (#[trigger] m.spec_symbols()[j]) < b,
        i < m.spec_symbols().len() ==> (m.spec_symbols()[i] as int) >= b,
    ensures
        counts_search(counts, b, acc, v) == m.value_search(i, acc, v),
    decreases 256 - b,
{
    let syms = m.spec_symbols();
    if b == 256 {
        if i < syms.len() {
            assert((syms[i] as int) < 256);
            assert(false);
        }
    } else if counts[b] >= 1 {
        assert(syms.contains(b as u8));
        let j = choose|j: int| 0 <= j < syms.len() && syms[j] == b as u8;
        assert(j >= i);
        if j > i {
            assert(syms[i] < syms[j]);
            assert((syms[i] as int) < b);
            assert(false);
        }
        assert(syms[i] == b as u8);
        let c = counts[b] as int;
        if acc <= v < acc + c {
        } else {
            lemma_search_bridge(m, counts, b + 1, i + 1, acc + c, v);
            assert forall|k: int| 0 <= k < i + 1 implies (#[trigger] syms[k]) < b + 1 by {
                if k < i {
                    assert(syms[k] < b);
                }
            }
        }
    } else {
        assert(!syms.contains(b as u8));
        if i < syms.len() {
            if (syms[i] as int) == b {
                assert(syms.contains(b as u8));
                assert(false);
            }
        }
        lemma_search_bridge(m, counts, b + 1, i, acc, v);
    }
}

/// A well-formed model's symbol-interval assignment equals the cumulative
/// range over its raw count table.
pub proof fn lemma_interval_matches_counts(m: FrequencyModel, counts: Seq<u64>, s: u8)
    requires
        m.wf(),
        counts.len() == 256,
        forall|b: int| 0 <= b < 256 ==> counts[b] == m.count_of(b as u8),
    ensures
        m.symbol_range_of(s) == (if counts[s as int] >= 1 {
            Some(
                (
                    counts_sum(counts, s as int),
                    counts_sum(counts, s as int) + counts[s as int] as int,
                ),
            )
        } else {
            None::<(int, int)>
        }),
{
    lemma_interval_bridge(m, counts, 0, 0, 0, s);
}

/// Induction core of the interval bridge, carrying the cumulative sum of
/// all byte values below the walk position.
proof fn lemma_interval_bridge(
    m: FrequencyModel,
    counts: Seq<u64>,
    b: int,
    i: int,
    acc: int,
    s: u8,
)
    requires
        m.wf(),
        counts.len() == 256,
        forall|k: int| 0 <= k < 256 ==> counts[k] == m.count_of(k as u8),
        0 <= b <= 256,
        0 <= i <= m.spec_symbols().len(),
        forall|j: int| 0 <= j < i ==> (#[trigger] m.spec_symbols()[j]) < b,
        i < m.spec_symbols().len() ==> (m.spec_symbols()[i] as int) >= b,
        acc == counts_sum(counts, b),
    ensures
        m.range_search(i, acc, s) == (if (s as int) >= b && counts[s as int] >= 1 {
            Some(
                (
                    counts_sum(counts, s as int),
                    counts_sum(counts, s as int) + counts[s as int] as int,
                ),
            )
        } else {
            None::<(int, int)>
        }),
    decreases 256 - b,
{
    let syms = m.spec_symbols();
    if b == 256 {
        if i < syms.len() {
            assert((syms[i] as int) < 256);
            assert(false);
        }
    } else if counts[b] >= 1 {
        assert(syms.contains(b as u8));
        let j = choose|j: int| 0 <= j < syms.len() && syms[j] == b as u8;
        assert(j >= i);
        if j > i {
            assert(syms[i] < syms[j]);
            assert(false);
        }
        assert(syms[i] == b as u8);
        let c = counts[b] as int;
        if s == b as u8 {
            assert(m.range_search(i, acc, s) == Some((acc, acc + c)));
        } else {
            lemma_interval_bridge(m, counts, b + 1, i + 1, acc + c, s);
            assert forall|k: int| 0 <= k < i + 1 implies (#[trigger] syms[k]) < b + 1 by {
                if k < i {
                    assert(syms[k] < b);
                }
            }
            if (s as int) < b + 1 {
                assert((s as int) < b || s == b as u8);
            }
        }
    } else {
        assert(!syms.contains(b as u8));
        if i < syms.len() {
            if (syms[i] as int) == b {
                assert(syms.contains(b as u8));
                assert(false);
            }
        }
        lemma_interval_bridge(m, counts, b + 1, i, acc, s);
        if (s as int) == b {
            assert(counts[s as int] == 0);
        }
    }
}

/// The bounds and pending count of the bit-emitting renormalization agree
/// with the plain one.
pub proof fn lemma_renorm_top_bits_state(low: int, high: int, pending: int, bits: Seq<bool>)
    requires
        0 <= low <= high <= MAX_VALUE,
    ensures
        ({
            let (l1, h1, p1, b1) = renorm_top_bits(low, high, pending, bits);
            let (l2, h2, p2) = renorm_top(low, high, pending);
            l1 == l2 && h1 == h2 && p1 == p2
        }),
    decreases MAX_VALUE - (high - low),
{
    if high < HALF {
        lemma_renorm_top_bits_state(
            2 * low,
            2 * high + 1,
            0,
            bits + seq![false] + repeat_bit(true, pending as nat),
        );
    } else if low >= HALF {
        lemma_renorm_top_bits_state(
            2 * (low - HALF),
            2 * (high - HALF) + 1,
            0,
            bits + seq![true] + repeat_bit(false, pending as nat),
        );
    }
}

/// Once the cursor is past the end of the input, every consumed bit is
/// zero: two renormalization runs from cursors past the end compute the
/// same bounds and value.
pub proof fn lemma_renorm_top_dec_past_end(
    low: int,
    high: int,
    value: int,
    c1: int,
    c2: int,
    input: Seq<u8>,
)
    requires
        0 <= low <= high <= MAX_VALUE,
        c1 >= 8 * input.len(),
        c2 >= 8 * input.len(),
        0 <= c1,
        0 <= c2,
    ensures
        ({
            let r1 = renorm_top_dec(low, high, value, c1, input);
            let r2 = renorm_top_dec(low, high, value, c2, input);
            r1.0 == r2.0 && r1.1 == r2.1 && r1.2 == r2.2 && r1.3 - c1 == r2.3 - c2
        }),
    decreases MAX_VALUE - (high - low),
{
    if high < HALF || low >= HALF {
        lemma_stream_bit_past_end(input, c1);
        lemma_stream_bit_past_end(input, c2);
        if high < HALF {
            lemma_renorm_top_dec_past_end(
                2 * low,
                2 * high + 1,
                2 * value,
                c1 + 1,
                c2 + 1,
                input,
            );
        } else {
            lemma_renorm_top_dec_past_end(
                2 * (low - HALF),
                2 * (high - HALF) + 1,
                2 * (value - HALF),
                c1 + 1,
                c2 + 1,
                input,
            );
        }
    }
}

/// The middle-range analogue of the past-the-end agreement.
pub proof fn lemma_renorm_middle_dec_past_end(
    low: int,
    high: int,
    value: int,
    c1: int,
    c2: int,
    input: Seq<u8>,
)
    requires
        0 <= low <= high <= MAX_VALUE,
        c1 >= 8 * input.len(),
        c2 >= 8 * input.len(),
        0 <= c1,
        0 <= c2,
    ensures
        ({
            let r1 = renorm_middle_dec(low, high, value, c1, input);
            let r2 = renorm_middle_dec(low, high, value, c2, input);
            r1.0 == r2.0 && r1.1 == r2.1 && r1.2 == r2.2 && r1.3 - c1 == r2.3 - c2
        }),
    decreases MAX_VALUE - (high - low),
{
    if low >= QUARTER && high < THREE_QUARTERS {
        lemma_stream_bit_past_end(input, c1);
        lemma_stream_bit_past_end(input, c2);
        lemma_renorm_middle_dec_past_end(
            2 * (low - QUARTER),
            2 * (high - QUARTER) + 1,
            2 * (value - QUARTER),
            c1 + 1,
            c2 + 1,
            input,
        );
    }
}

/// Stream bits past the end of the input are zero.
pub proof fn lemma_stream_bit_past_end(input: Seq<u8>, c: int)
    requires
        c >= 8 * input.len(),
        0 <= c,
    ensures
        stream_bit(input, c as nat) == 0,
{
    vstd::arithmetic::div_mod::lemma_div_is_ordered(8 * input.len() as int, c, 8);
    vstd::arithmetic::div_mod::lemma_div_multiples_vanish(input.len() as int, 8);
}


/// The decoder's top-bit renormalization moves the bounds exactly as the
/// plain renormalization does.
pub proof fn lemma_renorm_top_dec_state(
    low: int,
    high: int,
    value: int,
    cursor: int,
    input: Seq<u8>,
)
    requires
        0 <= low <= high <= MAX_VALUE,
    ensures
        ({
            let r = renorm_top_dec(low, high, value, cursor, input);
            let (l2, h2, p2) = renorm_top(low, high, 0);
            r.0 == l2 && r.1 == h2
        }),
    decreases MAX_VALUE - (high - low),
{
    if high < HALF {
        lemma_renorm_top_dec_state(
            2 * low,
            2 * high + 1,
            2 * value + stream_bit(input, cursor as nat) as int,
            cursor + 1,
            input,
        );
    } else if low >= HALF {
        lemma_renorm_top_dec_state(
            2 * (low - HALF),
            2 * (high - HALF) + 1,
            2 * (value - HALF) + stream_bit(input, cursor as nat) as int,
            cursor + 1,
            input,
        );
    }
}

/// The decoder's underflow renormalization moves the bounds exactly as the
/// plain renormalization does.
pub proof fn lemma_renorm_middle_dec_state(
    low: int,
    high: int,
    value: int,
    cursor: int,
    input: Seq<u8>,
)
    requires
        0 <= low <= high <= MAX_VALUE,
    ensures
        ({
            let r = renorm_middle_dec(low, high, value, cursor, input);
            let (l2, h2, p2) = renorm_middle(low, high, 0);
            r.0 == l2 && r.1 == h2
        }),
    decreases MAX_VALUE - (high - low),
{
    if low >= QUARTER && high < THREE_QUARTERS {
        lemma_renorm_middle_dec_state(
            2 * (low - QUARTER),
            2 * (high - QUARTER) + 1,
            2 * (value - QUARTER) + stream_bit(input, cursor as nat) as int,
            cursor + 1,
            input,
        );
        lemma_renorm_middle_pending_irrelevant(
            2 * (low - QUARTER),
            2 * (high - QUARTER) + 1,
            1,
            0,
        );
    }
}

/// The decoder renormalizations never move the cursor backwards.
pub proof fn lemma_renorm_dec_cursor_monotone(
    low: int,
    high: int,
    value: int,
    cursor: int,
    input: Seq<u8>,
)
    requires
        0 <= low <= high <= MAX_VALUE,
    ensures
        renorm_top_dec(low, high, value, cursor, input).3 >= cursor,
        renorm_middle_dec(low, high, value, cursor, input).3 >= cursor,
    decreases MAX_VALUE - (high - low),
{
    if high < HALF {
        lemma_renorm_dec_cursor_monotone(
            2 * low,
            2 * high + 1,
            2 * value + stream_bit(input, cursor as nat) as int,
            cursor + 1,
            input,
        );
    } else if low >= HALF {
        lemma_renorm_dec_cursor_monotone(
            2 * (low - HALF),
            2 * (high - HALF) + 1,
            2 * (value - HALF) + stream_bit(input, cursor as nat) as int,
            cursor + 1,
            input,
        );
    }
    if low >= QUARTER && high < THREE_QUARTERS {
        lemma_renorm_dec_cursor_monotone(
            2 * (low - QUARTER),
            2 * (high - QUARTER) + 1,
            2 * (value - QUARTER) + stream_bit(input, cursor as nat) as int,
            cursor + 1,
            input,
        );
    }
}


/// The numeric bounds packed in the decoder invariant, for callers outside
/// this module.
pub proof fn lemma_decoder_wf_bounds(d: ArithmeticDecoder)
    requires
        d.wf(),
    ensures
        0 <= d.spec_low() <= d.spec_high() <= MAX_VALUE,
        d.spec_high() - d.spec_low() >= QUARTER,
        d.spec_low() <= d.spec_value() <= d.spec_high(),
        0 <= d.spec_cursor() <= 8 * d.spec_input().len(),
{
}


/// Publishes the interval bounds that the coder's well-formedness keeps.
pub proof fn lemma_coder_wf_bounds(c: ArithmeticCoder)
    requires
        c.wf(),
    ensures
        0 <= c.spec_low() <= c.spec_high() <= MAX_VALUE,
        c.spec_high() - c.spec_low() >= QUARTER,
{
}

/// The stored total of a well-formed model is the sum of its raw count
/// table.
pub proof fn lemma_model_total_counts(m: FrequencyModel)
    requires
        m.wf(),
    ensures
        m.spec_total() as int == counts_sum(counts_of_model(m), 256),
{
}

} // verus!
