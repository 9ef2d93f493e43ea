//! Byte-oriented range coder with an adaptive frequency model: a 32-bit
//! range that renormalizes a byte at a time, and a count table that adapts
//! per coded symbol and rescales to stay within precision.

use vstd::prelude::*;
use crate::error::CodecError;

verus! {

/// Renormalization threshold: the top byte of the range.
pub const RANGE_CODER_TOP: u32 = 0x0100_0000;

/// Renormalization floor: the range is kept at least this wide.
pub const RANGE_CODER_BOTTOM: u32 = 0x0001_0000;

/// Sum of the first `i` entries of a count table.
pub open spec fn freq_sum(freqs: Seq<u32>, i: int) -> int
    decreases i,
{
    if i <= 0 {
        0
    } else {
        freq_sum(freqs, i - 1) + freqs[i - 1]
    }
}

/// Saturating 32-bit sum, at the specification level.
pub open spec fn sat_add32(a: int, b: int) -> int {
    vstd::math::min(a + b, u32::MAX as int)
}

/// Saturating 32-bit product, at the specification level.
pub open spec fn sat_mul32(a: int, b: int) -> int {
    vstd::math::min(a * b, u32::MAX as int)
}

/// The renormalization chain: while the range is below the floor, emit the
/// top byte of `low` and shift both up by one byte.
pub open spec fn renorm_emit(low: u32, range: u32, out: Seq<u8>) -> (u32, u32, Seq<u8>)
    decreases RANGE_CODER_BOTTOM as int - vstd::math::min(
        range as int,
        RANGE_CODER_BOTTOM as int,
    )
        when 1 <= range
{
    if range < RANGE_CODER_BOTTOM {
        renorm_emit((low << 8) as u32, (range * 256) as u32, out.push((low >> 24) as u8))
    } else {
        (low, range, out)
    }
}

/// The four state bytes the encoder flushes at the end, top byte first.
pub open spec fn flush_bytes(low: u32, k: nat) -> Seq<u8>
    decreases k,
{
    if k == 0 {
        Seq::empty()
    } else {
        seq![(low >> 24) as u8] + flush_bytes((low << 8) as u32, (k - 1) as nat)
    }
}

/// Saturating 32-bit difference, at the specification level.
pub open spec fn sat_sub32(a: int, b: int) -> int {
    vstd::math::max(a - b, 0)
}

/// Range encoder writing to an in-memory buffer.
pub struct RangeEncoder {
    output: Vec<u8>,
    low: u32,
    range: u32,
}

impl RangeEncoder {
    /// The bytes emitted so far.
    pub closed spec fn spec_output(self) -> Seq<u8> {
        self.output@
    }

    /// The lower bound of the coder state.
    pub closed spec fn spec_low(self) -> u32 {
        self.low
    }

    /// The current range width.
    pub closed spec fn spec_range(self) -> u32 {
        self.range
    }

    /// Encoder invariant: the range never collapses.
    pub closed spec fn wf(self) -> bool {
        self.range >= 1
    }

    /// A fresh encoder: full range, nothing written.
    pub fn new() -> (r: RangeEncoder)
        ensures
            r.wf(),
            r.spec_output() == Seq::<u8>::empty(),
            r.spec_low() == 0,
            r.spec_range() == u32::MAX,
    {
        let r = RangeEncoder { output: Vec::new(), low: 0, range: u32::MAX };
        proof {
            assert(r.spec_output() =~= Seq::<u8>::empty());
        }
        r
    }

    /// Encode one symbol from its frequency, cumulative frequency and
    /// total.  A zero total or zero symbol frequency is a model bug and
    /// fails; so does a range underflow.  Output only ever grows.
    pub fn encode_symbol(&mut self, sym_freq: u32, cum_freq: u32, total_freq: u32) -> (r: Result<
        (),
        CodecError,
    >)
        requires
            old(self).wf(),
        ensures
            final(self).wf(),
            old(self).spec_output().is_prefix_of(final(self).spec_output()),
            r is Err <==> (total_freq == 0 || sym_freq == 0 || sat_mul32(
                sym_freq as int,
                old(self).spec_range() as int / total_freq as int,
            ) == 0),
            r is Err ==> r->Err_0 is EntropyCoding && *final(self) == *old(self),
            r is Ok ==> ({
                let r0 = old(self).spec_range() as int / total_freq as int;
                let nl = sat_add32(old(self).spec_low() as int, sat_mul32(cum_freq as int, r0));
                let nr = sat_mul32(sym_freq as int, r0);
                let (l2, r2, out2) = renorm_emit(
                    nl as u32,
                    nr as u32,
                    old(self).spec_output(),
                );
                final(self).spec_low() == l2 && final(self).spec_range() == r2
                    && final(self).spec_output() == out2
            }),
    {
        if total_freq == 0 || sym_freq == 0 {
            return Err(CodecError::EntropyCoding(String::new()));
        }
        let r0 = self.range / total_freq;
        let new_low = saturating_add_u32(self.low, saturating_mul_u32(cum_freq, r0));
        let new_range = saturating_mul_u32(sym_freq, r0);
        if new_range == 0 {
            return Err(CodecError::EntropyCoding(String::new()));
        }
        self.low = new_low;
        self.range = new_range;
        let ghost n_low = self.low;
        let ghost n_range = self.range;
        while self.range < RANGE_CODER_BOTTOM
            invariant
                1 <= self.range,
                old(self).spec_output().is_prefix_of(self.output@),
                renorm_emit(self.low, self.range, self.output@) == renorm_emit(
                    n_low,
                    n_range,
                    old(self).spec_output(),
                ),
            decreases RANGE_CODER_BOTTOM as int - vstd::math::min(
                self.range as int,
                RANGE_CODER_BOTTOM as int,
            ),
        {
            self.normalize();
        }
        Ok(())
    }

    /// Emit the top byte of `low` and shift the coder state up.
    fn normalize(&mut self)
        requires
            1 <= old(self).range < RANGE_CODER_BOTTOM,
        ensures
            final(self).range == old(self).range * 256,
            final(self).low == (old(self).low << 8) as u32,
            old(self).output@.is_prefix_of(final(self).output@),
            final(self).output@.len() == old(self).output@.len() + 1,
            final(self).output@ == old(self).output@.push((old(self).low >> 24) as u8),
    {
        let top = (self.low >> 24) as u8;
        self.output.push(top);
        self.low = self.low << 8;
        let r0 = self.range;
        self.range = r0 * 256;
        proof {
            assert(old(self).output@.is_prefix_of(self.output@));
        }
    }

    /// Flush the final four bytes of coder state, top byte first.
    pub fn finish(&mut self) -> (r: Result<(), CodecError>)
        requires
            old(self).wf(),
        ensures
            r is Ok,
            final(self).wf(),
            old(self).spec_output().is_prefix_of(final(self).spec_output()),
            final(self).spec_output().len() == old(self).spec_output().len() + 4,
            final(self).spec_output() == old(self).spec_output() + flush_bytes(
                old(self).spec_low(),
                4,
            ),
    {
        let mut i: usize = 0;
        proof {
            assert(self.output@ + flush_bytes(self.low, 4) =~= old(self).spec_output()
                + flush_bytes(old(self).spec_low(), 4));
        }
        while i < 4
            invariant
                i <= 4,
                1 <= self.range,
                self.output@.len() == old(self).output@.len() + i,
                old(self).spec_output().is_prefix_of(self.output@),
                self.output@ + flush_bytes(self.low, (4 - i) as nat) == old(self).spec_output()
                    + flush_bytes(old(self).spec_low(), 4),
            decreases 4 - i,
        {
            let top = (self.low >> 24) as u8;
            self.output.push(top);
            self.low = self.low << 8;
            i = i + 1;
            proof {
                assert(old(self).output@.is_prefix_of(self.output@));
                assert(self.output@ + flush_bytes(self.low, (4 - i) as nat)
                    =~= old(self).spec_output() + flush_bytes(old(self).spec_low(), 4));
            }
        }
        proof {
            assert(flush_bytes(self.low, 0) =~= Seq::<u8>::empty());
            assert(self.output@ =~= self.output@ + flush_bytes(self.low, 0));
        }
        Ok(())
    }

    /// Take the coded bytes out.
    pub fn into_bytes(self) -> (r: Vec<u8>)
        ensures
            r@ == self.spec_output(),
    {
        self.output
    }
}

/// Saturating 32-bit addition.
fn saturating_add_u32(a: u32, b: u32) -> (r: u32)
    ensures
        r as int == sat_add32(a as int, b as int),
{
    if a > u32::MAX - b {
        u32::MAX
    } else {
        a + b
    }
}

/// Saturating 32-bit multiplication.
fn saturating_mul_u32(a: u32, b: u32) -> (r: u32)
    ensures
        r as int == sat_mul32(a as int, b as int),
{
    if b == 0 {
        proof {
            assert(a as int * 0 == 0) by (nonlinear_arith);
        }
        return 0;
    }
    if a > u32::MAX / b {
        proof {
            vstd::arithmetic::div_mod::lemma_fundamental_div_mod(u32::MAX as int, b as int);
            assert(a as int * b as int > u32::MAX) by (nonlinear_arith)
                requires
                    a as int >= (u32::MAX as int) / (b as int) + 1,
                    u32::MAX as int == (b as int) * ((u32::MAX as int) / (b as int)) + ((
                    u32::MAX as int) % (b as int)),
                    ((u32::MAX as int) % (b as int)) < b as int,
                    b >= 1,
            ;
        }
        u32::MAX
    } else {
        proof {
            assert(a * b <= (u32::MAX as int / b as int) * b <= u32::MAX) by (nonlinear_arith)
                requires
                    0 < b <= u32::MAX,
                    0 <= a <= u32::MAX as int / b as int,
            ;
        }
        a * b
    }
}

/// Range decoder reading from an in-memory buffer; past the end the stream
/// reads as zero bytes.
pub struct RangeDecoder {
    input: Vec<u8>,
    pos: usize,
    low: u32,
    range: u32,
    code: u32,
}

impl RangeDecoder {
    /// Decoder invariant: the range never collapses and the cursor stays
    /// inside or just past the input.
    pub closed spec fn wf(self) -> bool {
        1 <= self.range && self.pos <= self.input@.len()
    }

    /// The lower bound of the decoder state.
    pub closed spec fn spec_low(self) -> u32 {
        self.low
    }

    /// The current range width.
    pub closed spec fn spec_range(self) -> u32 {
        self.range
    }

    /// The rolling code value read from the stream.
    pub closed spec fn spec_code(self) -> u32 {
        self.code
    }

    /// A fresh decoder over a buffer, primed with the first four bytes.
    /// Fails on a buffer shorter than the four priming bytes.
    pub fn new(input: Vec<u8>) -> (r: Result<RangeDecoder, CodecError>)
        ensures
            match r {
                Ok(d) => d.wf() && input@.len() >= 4,
                Err(e) => input@.len() < 4 && e is Io,
            },
    {
        if input.len() < 4 {
            return Err(CodecError::Io(String::new()));
        }
        let mut code: u32 = 0;
        let mut i: usize = 0;
        while i < 4
            invariant
                i <= 4,
                input@.len() >= 4,
            decreases 4 - i,
        {
            code = (code << 8) | (input[i] as u32);
            i = i + 1;
        }
        Ok(RangeDecoder { input, pos: 4, low: 0, range: u32::MAX, code })
    }

    /// Decode one symbol against a frequency table: the returned index has a
    /// positive frequency, and the scaled code value falls inside its
    /// cumulative interval.  A zero total or an interval mismatch is
    /// corruption and fails.
    pub fn decode_symbol(&mut self, freqs: &[u32]) -> (r: Result<usize, CodecError>)
        requires
            old(self).wf(),
            freq_sum(freqs@, freqs@.len() as int) <= u32::MAX,
        ensures
            final(self).wf(),
            match r {
                Ok(i) => ({
                    let total = freq_sum(freqs@, freqs@.len() as int);
                    let r0 = old(self).spec_range() as int / total;
                    let scaled = sat_sub32(
                        old(self).spec_code() as int,
                        old(self).spec_low() as int,
                    ) / r0;
                    &&& i < freqs@.len()
                    &&& freqs@[i as int] > 0
                    &&& scaled < freq_sum(freqs@, i as int + 1)
                    &&& forall|k: int|
                        0 <= k < i ==> !((#[trigger] freqs@[k]) > 0 && scaled < freq_sum(
                            freqs@,
                            k + 1,
                        ))
                }),
                Err(e) => e is CorruptedData,
            },
    {
        let total_freq = sum_freqs(freqs);
        if total_freq == 0 {
            return Err(CodecError::CorruptedData(String::new()));
        }
        let r0 = self.range / total_freq;
        if r0 == 0 {
            return Err(CodecError::CorruptedData(String::new()));
        }
        let scaled_code = saturating_sub_u32(self.code, self.low) / r0;
        let ghost g_scaled = scaled_code as int;
        let n = freqs.len();
        let mut cum_freq: u32 = 0;
        let mut i: usize = 0;
        while i < n
            invariant
                i <= n,
                n == freqs@.len(),
                1 <= self.range,
                self.pos <= self.input@.len(),
                cum_freq == freq_sum(freqs@, i as int),
                freq_sum(freqs@, n as int) <= u32::MAX,
                1 <= r0,
                r0 == old(self).spec_range() as int / freq_sum(freqs@, n as int),
                g_scaled == sat_sub32(
                    old(self).spec_code() as int,
                    old(self).spec_low() as int,
                ) / (r0 as int),
                scaled_code == g_scaled,
                forall|k: int|
                    0 <= k < i ==> !((#[trigger] freqs@[k]) > 0 && g_scaled < freq_sum(
                        freqs@,
                        k + 1,
                    )),
            decreases n - i,
        {
            proof {
                lemma_freq_sum_bounds(freqs@, i as int + 1, n as int);
            }
            let freq = freqs[i];
            if freq > 0 && scaled_code < saturating_add_u32(cum_freq, freq) {
                self.low = saturating_add_u32(self.low, saturating_mul_u32(cum_freq, r0));
                let nr = saturating_mul_u32(freq, r0);
                if nr == 0 {
                    return Err(CodecError::CorruptedData(String::new()));
                }
                self.range = nr;
                while self.range < RANGE_CODER_BOTTOM
                    invariant
                        1 <= self.range,
                        self.pos <= self.input@.len(),
                    decreases RANGE_CODER_BOTTOM as int - vstd::math::min(
                        self.range as int,
                        RANGE_CODER_BOTTOM as int,
                    ),
                {
                    self.normalize();
                }
                return Ok(i);
            }
            cum_freq = saturating_add_u32(cum_freq, freq);
            i = i + 1;
        }
        Err(CodecError::CorruptedData(String::new()))
    }

    /// Shift the decoder state up one byte, pulling the next input byte or a
    /// zero past the end of the stream.
    fn normalize(&mut self)
        requires
            1 <= old(self).range < RANGE_CODER_BOTTOM,
            old(self).pos <= old(self).input@.len(),
        ensures
            final(self).range == old(self).range * 256,
            final(self).pos <= final(self).input@.len(),
            final(self).input@ == old(self).input@,
    {
        self.low = self.low << 8;
        let r0 = self.range;
        self.range = r0 * 256;
        let byte: u32 = if self.pos < self.input.len() {
            let b = self.input[self.pos];
            self.pos = self.pos + 1;
            b as u32
        } else {
            0
        };
        self.code = (self.code << 8) | byte;
    }
}

/// Saturating 32-bit subtraction.
fn saturating_sub_u32(a: u32, b: u32) -> (r: u32)
    ensures
        r as int == vstd::math::max(a as int - b as int, 0),
{
    if a < b {
        0
    } else {
        a - b
    }
}

/// Sum a frequency table; the caller keeps the sum within 32 bits.
fn sum_freqs(freqs: &[u32]) -> (r: u32)
    requires
        freq_sum(freqs@, freqs@.len() as int) <= u32::MAX,
    ensures
        r == freq_sum(freqs@, freqs@.len() as int),
{
    let n = freqs.len();
    let mut total: u32 = 0;
    let mut i: usize = 0;
    while i < n
        invariant
            i <= n,
            n == freqs@.len(),
            total == freq_sum(freqs@, i as int),
            freq_sum(freqs@, n as int) <= u32::MAX,
        decreases n - i,
    {
        proof {
            lemma_freq_sum_bounds(freqs@, i as int + 1, n as int);
        }
        total = total + freqs[i];
        i = i + 1;
    }
    total
}

/// Partial sums of a count table grow with the bound.
proof fn lemma_freq_sum_bounds(freqs: Seq<u32>, a: int, b: int)
    requires
        a <= b,
    ensures
        freq_sum(freqs, a) <= freq_sum(freqs, b),
    decreases b - a,
{
    if a < b {
        lemma_freq_sum_bounds(freqs, a, b - 1);
    }
}

/// Adaptive frequency model: per-symbol counts that grow with use and are
/// halved when the total reaches the coder's precision budget.
pub struct FrequencyModel {
    freqs: Vec<u32>,
    total: u32,
}

impl FrequencyModel {
    /// The recorded count of each symbol.
    pub closed spec fn spec_freqs(self) -> Seq<u32> {
        self.freqs@
    }

    /// The sum of all counts.
    pub closed spec fn spec_total(self) -> u32 {
        self.total
    }

    /// Model invariant: every count is at least one and the total is their
    /// sum, within the rescaling budget.
    pub closed spec fn wf(self) -> bool {
        &&& forall|i: int| 0 <= i < self.freqs@.len() ==> 1 <= #[trigger] self.freqs@[i]
        &&& self.total == freq_sum(self.freqs@, self.freqs@.len() as int)
        &&& self.total <= 0x1_0000
        &&& self.freqs@.len() <= 0x8000
    }

    /// A fresh model: one count for every symbol of the alphabet.
    pub fn new(alphabet_size: usize) -> (m: FrequencyModel)
        requires
            alphabet_size <= 0x8000,
        ensures
            m.wf(),
            m.spec_freqs().len() == alphabet_size,
            forall|i: int| 0 <= i < alphabet_size ==> #[trigger] m.spec_freqs()[i] == 1,
            m.spec_total() == alphabet_size,
    {
        let mut freqs: Vec<u32> = Vec::new();
        let mut i: usize = 0;
        while i < alphabet_size
            invariant
                i <= alphabet_size,
                freqs@.len() == i,
                forall|k: int| 0 <= k < i ==> #[trigger] freqs@[k] == 1,
                i == freq_sum(freqs@, i as int),
            decreases alphabet_size - i,
        {
            proof {
                lemma_freq_sum_push(freqs@, 1, i as int);
            }
            freqs.push(1);
            i = i + 1;
        }
        FrequencyModel { freqs, total: alphabet_size as u32 }
    }

    /// The count of one symbol.
    pub fn get_frequency(&self, symbol: usize) -> (r: u32)
        requires
            symbol < self.spec_freqs().len(),
        ensures
            r == self.spec_freqs()[symbol as int],
    {
        self.freqs[symbol]
    }

    /// The sum of the counts of all symbols before this one.
    pub fn get_cumulative_frequency(&self, symbol: usize) -> (r: u32)
        requires
            self.wf(),
            symbol <= self.spec_freqs().len(),
        ensures
            r == freq_sum(self.spec_freqs(), symbol as int),
    {
        let mut cum: u32 = 0;
        let mut i: usize = 0;
        while i < symbol
            invariant
                self.wf(),
                i <= symbol <= self.freqs@.len(),
                cum == freq_sum(self.freqs@, i as int),
            decreases symbol - i,
        {
            proof {
                lemma_freq_sum_bounds(self.freqs@, i as int + 1, self.freqs@.len() as int);
            }
            cum = cum + self.freqs[i];
            i = i + 1;
        }
        cum
    }

    /// The sum of all counts.
    pub fn get_total_frequency(&self) -> (r: u32)
        ensures
            r == self.spec_total(),
    {
        self.total
    }

    /// The whole count table.
    pub fn get_frequencies(&self) -> (r: &[u32])
        ensures
            r@ == self.spec_freqs(),
    {
        self.freqs.as_slice()
    }

    /// Record one more occurrence of a symbol; when the total exceeds the
    /// precision budget, every count is halved (rounding up) and the total
    /// recomputed.
    pub fn update(&mut self, symbol: usize)
        requires
            old(self).wf(),
            symbol < old(self).spec_freqs().len(),
        ensures
            final(self).wf(),
            final(self).spec_freqs().len() == old(self).spec_freqs().len(),
            old(self).spec_total() + 1 <= 0x8000 ==> final(self).spec_freqs()
                == old(self).spec_freqs().update(
                symbol as int,
                (old(self).spec_freqs()[symbol as int] + 1) as u32,
            ) && final(self).spec_total() == old(self).spec_total() + 1,
            old(self).spec_total() + 1 > 0x8000 ==> forall|k: int|
                0 <= k < old(self).spec_freqs().len()
                    ==> (#[trigger] final(self).spec_freqs()[k])
                    == ((old(self).spec_freqs().update(
                    symbol as int,
                    (old(self).spec_freqs()[symbol as int] + 1) as u32,
                )[k] + 1) / 2) as u32,
    {
        proof {
            lemma_freq_elem_le_sum(self.freqs@, symbol as int, self.freqs@.len() as int);
        }
        let f = self.freqs[symbol];
        self.freqs.set(symbol, f + 1);
        self.total = self.total + 1;
        proof {
            lemma_freq_sum_set_effect(
                old(self).spec_freqs(),
                self.freqs@,
                symbol as int,
                self.freqs@.len() as int,
            );
            assert(self.freqs@ =~= old(self).spec_freqs().update(
                symbol as int,
                (old(self).spec_freqs()[symbol as int] + 1) as u32,
            ));
        }
        if self.total > 0x8000 {
            let n = self.freqs.len();
            let ghost pre = self.freqs@;
            proof {
                assert forall|k: int| 0 <= k < n implies 1 <= #[trigger] pre[k] <= 0x1_0002 by {
                    lemma_freq_elem_le_sum(pre, k, n as int);
                }
            }
            let mut i: usize = 0;
            while i < n
                invariant
                    i <= n,
                    n == self.freqs@.len(),
                    pre.len() == n,
                    forall|k: int| 0 <= k < n ==> 1 <= #[trigger] pre[k] <= 0x1_0002,
                    forall|k: int|
                        0 <= k < i ==> #[trigger] self.freqs@[k] == (pre[k] + 1) / 2,
                    forall|k: int| i <= k < n ==> #[trigger] self.freqs@[k] == pre[k],
                    forall|k: int| 0 <= k < n ==> 1 <= #[trigger] self.freqs@[k],
                    freq_sum(pre, n as int) <= 0x1_0001,
                    n <= 0x8000,
                decreases n - i,
            {
                let f0 = self.freqs[i];
                self.freqs.set(i, (f0 + 1) / 2);
                i = i + 1;
            }
            proof {
                lemma_halved_sum(pre, self.freqs@, n as int);
                assert(2 * freq_sum(self.freqs@, n as int) <= freq_sum(pre, n as int) + n);
            }
            self.total = sum_freqs(self.freqs.as_slice());
        }
    }
}

/// Appending an entry leaves earlier partial sums unchanged.
pub proof fn lemma_freq_sum_push(freqs: Seq<u32>, v: u32, i: int)
    requires
        0 <= i <= freqs.len(),
    ensures
        freq_sum(freqs.push(v), i) == freq_sum(freqs, i),
    decreases i,
{
    if i > 0 {
        lemma_freq_sum_push(freqs, v, i - 1);
    }
}

/// Raising one entry by one raises the total by one.
proof fn lemma_freq_sum_set_effect(pre: Seq<u32>, post: Seq<u32>, k: int, n: int)
    requires
        pre.len() == post.len(),
        0 <= k < n <= pre.len(),
        post[k] == pre[k] + 1,
        forall|i: int| 0 <= i < pre.len() && i != k ==> post[i] == pre[i],
    ensures
        freq_sum(post, n) == freq_sum(pre, n) + 1,
    decreases n,
{
    if n > 0 {
        if k == n - 1 {
            lemma_freq_sum_agree(pre, post, n - 1);
        } else {
            lemma_freq_sum_set_effect(pre, post, k, n - 1);
        }
    }
}

/// Every entry of a nonnegative count table is at most the partial sum that
/// includes it.
proof fn lemma_freq_elem_le_sum(freqs: Seq<u32>, k: int, n: int)
    requires
        0 <= k < n <= freqs.len(),
    ensures
        freqs[k] <= freq_sum(freqs, n),
    decreases n,
{
    if k == n - 1 {
        lemma_freq_sum_nonneg(freqs, n - 1);
    } else {
        lemma_freq_elem_le_sum(freqs, k, n - 1);
    }
}

/// Partial sums of a nonnegative table are nonnegative.
proof fn lemma_freq_sum_nonneg(freqs: Seq<u32>, n: int)
    ensures
        freq_sum(freqs, n) >= 0,
    decreases n,
{
    if n > 0 {
        lemma_freq_sum_nonneg(freqs, n - 1);
    }
}

/// Tables that agree below a bound have the same partial sum.
proof fn lemma_freq_sum_agree(pre: Seq<u32>, post: Seq<u32>, n: int)
    requires
        pre.len() == post.len(),
        n <= pre.len(),
        forall|i: int| 0 <= i < n ==> post[i] == pre[i],
    ensures
        freq_sum(post, n) == freq_sum(pre, n),
    decreases n,
{
    if n > 0 {
        lemma_freq_sum_agree(pre, post, n - 1);
    }
}

/// Halving every count (rounding up) at most halves the total plus the
/// number of symbols.
proof fn lemma_halved_sum(pre: Seq<u32>, post: Seq<u32>, n: int)
    requires
        pre.len() == post.len(),
        0 <= n <= pre.len(),
        forall|k: int| 0 <= k < pre.len() ==> #[trigger] post[k] == (pre[k] + 1) / 2,
    ensures
        2 * freq_sum(post, n) <= freq_sum(pre, n) + n,
    decreases n,
{
    if n > 0 {
        lemma_halved_sum(pre, post, n - 1);
        vstd::arithmetic::div_mod::lemma_fundamental_div_mod(pre[n - 1] + 1, 2);
    }
}


/// The stored total of a well-formed model is exactly the sum of its
/// counts, and every count is at least one.
pub proof fn lemma_model_total(m: FrequencyModel)
    requires
        m.wf(),
    ensures
        m.spec_total() == freq_sum(m.spec_freqs(), m.spec_freqs().len() as int),
        forall|i: int| 0 <= i < m.spec_freqs().len() ==> 1 <= #[trigger] m.spec_freqs()[i],
{
}

} // verus!
