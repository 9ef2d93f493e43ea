//! TCF text container codec: Unicode normalization, a static frequency
//! model, arithmetic coding of every byte, and binary framing with a SHA-256
//! integrity digest.
//!
//! Container layout, little-endian: 4 magic bytes, a 4-byte header length,
//! the fixed 90-byte header (version, flags, original size, compressed size,
//! model size, 64 hex digest bytes), the serialized frequency model, and the
//! packed arithmetic-coded bitstream.

use vstd::prelude::*;
use crate::arith::ArithmeticCoder;
use crate::arith::ArithmeticDecoder;
use crate::arith::FrequencyModel;
use crate::arith::counts_bytes_upto;
use crate::arith::counts_search;
use crate::arith::counts_sum;
use crate::arith::decoded_counts;
use crate::arith::narrow_high;
use crate::arith::narrow_low;
use crate::arith::occ;
use crate::arith::pack_bits;
use crate::arith::renorm_middle;
use crate::arith::renorm_middle_dec;
use crate::arith::renorm_top_bits;
use crate::arith::renorm_top_dec;
use crate::arith::repeat_bit;
use crate::arith::stream_prefix_value;
use crate::arith::symbol_value_spec;
use crate::arith::MAX_VALUE;
use crate::arith::QUARTER;
use crate::error::CodecError;
use crate::hashing::sha256_hex;
use crate::hashing::sha256_hex_of;
use crate::hashing::string_from_utf8;
use crate::model::TextModel;
use crate::model::nfc_of;
use vstd::string::StrSliceExecFns;
use vstd::string::StringExecFns;

verus! {

/// Highest input length the arithmetic coder's precision admits.
pub const TCF_MAX_INPUT: u64 = 0x0400_0000_0000_0000;

/// Serialized length of the fixed part of the header.
pub const TCF_HEADER_LEN: u32 = 90;

/// Container flag bits.
pub struct TcfFlags;

impl TcfFlags {
    pub const NONE: u32 = 0;

    pub const UNICODE_NORMALIZED: u32 = 1;

    pub const DICTIONARY_COMPRESSED: u32 = 2;

    pub const ADAPTIVE_MODEL: u32 = 4;
}

/// TCF header: the container metadata stored between the magic bytes and the
/// serialized model.
pub struct TcfHeader {
    pub magic: String,
    pub version: u16,
    pub flags: u32,
    pub original_size: u64,
    pub compressed_size: u64,
    pub checksum: String,
    pub model_size: u32,
    pub compression_method: String,
}

/// The four magic bytes `TCF2`.
pub open spec fn tcf_magic() -> Seq<u8> {
    seq![0x54u8, 0x43u8, 0x46u8, 0x32u8]
}

/// The serialized fixed-size header fields.
pub open spec fn tcf_header_bytes(
    version: u16,
    flags: u32,
    original_size: u64,
    compressed_size: u64,
    model_size: u32,
    checksum: Seq<u8>,
) -> Seq<u8> {
    vstd::bytes::spec_u16_to_le_bytes(version) + vstd::bytes::spec_u32_to_le_bytes(flags)
        + vstd::bytes::spec_u64_to_le_bytes(original_size) + vstd::bytes::spec_u64_to_le_bytes(
        compressed_size,
    ) + vstd::bytes::spec_u32_to_le_bytes(model_size) + checksum
}

/// The per-byte occurrence counts of a byte string, as a count table.
pub open spec fn occurrence_counts(data: Seq<u8>) -> Seq<u64> {
    Seq::new(256, |b: int| occ(data, b as u8) as u64)
}

/// The full container a given payload produces for given original data: the
/// magic, the header, the serialized occurrence model, and the payload.
pub open spec fn tcf_container_spec(data: Seq<u8>, payload: Seq<u8>) -> Seq<u8> {
    tcf_magic() + vstd::bytes::spec_u32_to_le_bytes(TCF_HEADER_LEN) + tcf_header_bytes(
        2,
        TcfFlags::UNICODE_NORMALIZED | TcfFlags::ADAPTIVE_MODEL,
        data.len() as u64,
        payload.len() as u64,
        2048,
        vstd::utf8::encode_utf8(sha256_hex_of(data)),
    ) + counts_bytes_upto(occurrence_counts(data), 256) + payload
}

/// Structural validity of a container prefix: magic, header length and
/// enough bytes for the fixed header.
pub open spec fn tcf_frame_ok(data: Seq<u8>) -> bool {
    &&& data.len() >= 8
    &&& data.subrange(0, 4) == tcf_magic()
    &&& vstd::bytes::spec_u32_from_le_bytes(data.subrange(4, 8)) == TCF_HEADER_LEN
    &&& data.len() >= 98
}

/// The header fields embedded in a structurally valid container: version,
/// flags, original size, compressed size, model size, digest bytes.
pub open spec fn tcf_fields(data: Seq<u8>) -> (u16, u32, u64, u64, u32, Seq<u8>)
    recommends
        tcf_frame_ok(data),
{
    (
        vstd::bytes::spec_u16_from_le_bytes(data.subrange(8, 10)),
        vstd::bytes::spec_u32_from_le_bytes(data.subrange(10, 14)),
        vstd::bytes::spec_u64_from_le_bytes(data.subrange(14, 22)),
        vstd::bytes::spec_u64_from_le_bytes(data.subrange(22, 30)),
        vstd::bytes::spec_u32_from_le_bytes(data.subrange(30, 34)),
        data.subrange(34, 98),
    )
}

/// The model and payload regions fit inside the container.
pub open spec fn tcf_bounds_ok(data: Seq<u8>) -> bool
    recommends
        tcf_frame_ok(data),
{
    data.len() >= 98 + tcf_fields(data).4
}

/// The serialized frequency model region of a container.
pub open spec fn tcf_model_region(data: Seq<u8>) -> Seq<u8>
    recommends
        tcf_frame_ok(data),
        tcf_bounds_ok(data),
{
    data.subrange(98, 98 + tcf_fields(data).4 as int)
}

/// The model region holds a parseable frequency model: exactly 2048 bytes of
/// counts whose sum stays within range.
pub open spec fn tcf_model_ok(data: Seq<u8>) -> bool
    recommends
        tcf_frame_ok(data),
        tcf_bounds_ok(data),
{
    &&& tcf_fields(data).4 == 2048
    &&& crate::arith::counts_sum(crate::arith::decoded_counts(tcf_model_region(data)), 256)
        <= u64::MAX
}

/// The total symbol count stored in the model region.
pub open spec fn tcf_total(data: Seq<u8>) -> int
    recommends
        tcf_frame_ok(data),
        tcf_bounds_ok(data),
{
    crate::arith::counts_sum(crate::arith::decoded_counts(tcf_model_region(data)), 256)
}

/// The stored sizes fit the coder's precision: a nonempty text needs a total
/// between one and a quarter of the precision range, and the byte count must
/// be addressable.
pub open spec fn tcf_coding_ok(data: Seq<u8>) -> bool
    recommends
        tcf_frame_ok(data),
        tcf_bounds_ok(data),
        tcf_model_ok(data),
{
    &&& (tcf_fields(data).2 == 0 || (1 <= tcf_total(data) <= QUARTER))
    &&& tcf_fields(data).2 <= usize::MAX - 1
}

/// The coder's decode iteration at the specification level: starting from
/// the full range with the first 62 payload bits loaded, each step scales
/// the rolling value, looks the containing interval up in the count table,
/// narrows, and renormalizes while consuming payload bits.  The second
/// component collects the decoded bytes.
pub open spec fn tcf_decode_run(counts: Seq<u64>, payload: Seq<u8>, n: int) -> (
    (int, int, int, int),
    Seq<u8>,
)
    decreases n,
{
    if n <= 0 {
        (
            (0, MAX_VALUE as int, stream_prefix_value(payload, 62), 62),
            Seq::empty(),
        )
    } else {
        let (st, bs) = tcf_decode_run(counts, payload, n - 1);
        let total = counts_sum(counts, 256);
        let scaled = symbol_value_spec(st.0, st.1, st.2, total);
        match counts_search(counts, 0, 0, scaled) {
            Some((b, lo, hi)) => {
                let nl = narrow_low(st.0, st.1, lo, total);
                let nh = narrow_high(st.0, st.1, hi, total);
                let s1 = renorm_top_dec(nl, nh, st.2, st.3, payload);
                let s2 = renorm_middle_dec(s1.0, s1.1, s1.2, s1.3, payload);
                (s2, bs.push(b))
            },
            None => (st, bs),
        }
    }
}

/// The byte sequence the entropy decoder produces from a container: a pure
/// function of the stored count table, the stored size and the payload.
pub open spec fn tcf_decoded_bytes(data: Seq<u8>) -> Seq<u8>
    recommends
        tcf_frame_ok(data),
        tcf_bounds_ok(data),
        tcf_model_ok(data),
{
    tcf_decode_run(
        decoded_counts(tcf_model_region(data)),
        data.skip(98 + tcf_fields(data).4 as int),
        tcf_fields(data).2 as int,
    ).1
}

/// The coder's encode iteration at the specification level: each input
/// byte narrows by its cumulative interval in the count table and
/// renormalizes, accumulating the emitted bits.
pub open spec fn tcf_encode_run(counts: Seq<u64>, data: Seq<u8>, n: int) -> (
    int,
    int,
    int,
    Seq<bool>,
)
    decreases n,
{
    if n <= 0 {
        (0, MAX_VALUE as int, 0, Seq::empty())
    } else {
        let (l, h, p, bits) = tcf_encode_run(counts, data, n - 1);
        let b = data[n - 1];
        let total = counts_sum(counts, 256);
        let lo = counts_sum(counts, b as int);
        let hi = lo + counts[b as int] as int;
        let nl = narrow_low(l, h, lo, total);
        let nh = narrow_high(l, h, hi, total);
        let (l1, h1, p1, bits1) = renorm_top_bits(nl, nh, p, bits);
        let (l2, h2, p2) = renorm_middle(l1, h1, p1);
        (l2, h2, p2, bits1)
    }
}

/// The packed bitstream the encoder emits for given input bytes: the
/// accumulated bits, the final disambiguating bit, the flushed pending
/// bits, and zero padding to a byte boundary.
pub open spec fn tcf_payload_bytes(data: Seq<u8>) -> Seq<u8> {
    let (l, h, p, bits) = tcf_encode_run(occurrence_counts(data), data, data.len() as int);
    pack_bits(
        bits + seq![l >= QUARTER] + repeat_bit(l < QUARTER, (p + 1) as nat),
    )
}

/// High-performance text codec over the TCF container format.
pub struct TcfCodec;

impl TcfCodec {
    /// Encode text: normalize to NFC, model the byte frequencies, code every
    /// byte arithmetically, and frame the result with a SHA-256 digest of
    /// the normalized bytes.  Input whose normalized form exceeds the
    /// coder's precision capacity is rejected.
    pub fn encode(text: &str) -> (r: Result<Vec<u8>, CodecError>)
        ensures
            match r {
                Ok(out) => out@ == tcf_container_spec(
                    vstd::utf8::encode_utf8(nfc_of(text@)),
                    tcf_payload_bytes(vstd::utf8::encode_utf8(nfc_of(text@))),
                ),
                Err(e) => e is EntropyCoding && vstd::utf8::encode_utf8(nfc_of(text@)).len()
                    > TCF_MAX_INPUT,
            },
    {
        let normalized = TextModel::normalize_text(text);
        let data = normalized.as_str().as_bytes();
        let ghost gdata = vstd::utf8::encode_utf8(nfc_of(text@));
        proof {
            assert(data@ == gdata);
        }
        if data.len() as u64 > TCF_MAX_INPUT {
            return Err(CodecError::EntropyCoding(String::new()));
        }
        let original_size = data.len() as u64;

        let mut model = FrequencyModel::new();
        model.build_from_data(data);
        let model_data = model.serialize();

        let mut coder = ArithmeticCoder::new();
        let ghost gcounts = occurrence_counts(gdata);
        let n = data.len();
        let mut i: usize = 0;
        proof {
            crate::arith::lemma_counts_of_model(model);
            crate::arith::lemma_model_total_counts(model);
            assert(gcounts =~= crate::arith::counts_of_model(model));
        }
        while i < n
            invariant
                i <= n,
                n == data@.len(),
                n <= TCF_MAX_INPUT,
                data@ == gdata,
                gcounts == occurrence_counts(gdata),
                gcounts.len() == 256,
                model.wf(),
                forall|b: u8| model.count_of(b) == occ(data@, b),
                forall|b: int| 0 <= b < 256 ==> gcounts[b] == model.count_of(b as u8),
                model.spec_total() == data@.len(),
                model.spec_total() as int == counts_sum(gcounts, 256),
                coder.wf(),
                coder.spec_pending() <= 62 * (i as int),
                ({
                    let (l, h, p, bits) = tcf_encode_run(gcounts, gdata, i as int);
                    &&& coder.spec_low() as int == l
                    &&& coder.spec_high() as int == h
                    &&& coder.spec_pending() as int == p
                    &&& coder.spec_bits() == bits
                }),
            decreases n - i,
        {
            let ghost (g_l, g_h, g_p, g_bits) = tcf_encode_run(gcounts, gdata, i as int);
            let byte = data[i];
            proof {
                crate::arith::lemma_occ_index_positive(data@, i as int);
                crate::arith::lemma_interval_matches_counts(model, gcounts, byte);
                crate::arith::lemma_coder_wf_bounds(coder);
            }
            match model.get_symbol_range(byte) {
                Some((low, high)) => {
                    coder.encode_symbol(low, high, model.total_frequency());
                    proof {
                        let total = counts_sum(gcounts, 256);
                        let nl = narrow_low(g_l, g_h, low as int, total);
                        let nh = narrow_high(g_l, g_h, high as int, total);
                        crate::arith::lemma_narrow_bounds(
                            g_l,
                            g_h,
                            low as int,
                            high as int,
                            total,
                        );
                        crate::arith::lemma_renorm_top_bits_state(nl, nh, g_p, g_bits);
                    }
                },
                None => {
                    proof {
                        assert(model.count_of(byte) >= 1);
                        crate::arith::lemma_contained_symbol_found(model, byte);
                    }
                },
            }
            i = i + 1;
        }
        proof {
            let (l, h, p, bits) = tcf_encode_run(gcounts, gdata, n as int);
            assert(coder.spec_low() as int == l);
        }
        let compressed = coder.finish();
        proof {
            assert(compressed@ == tcf_payload_bytes(gdata));
        }

        let checksum = sha256_hex(data);

        let mut container: Vec<u8> = Vec::new();
        container.push(0x54);
        container.push(0x43);
        container.push(0x46);
        container.push(0x32);
        let mut hlen = vstd::bytes::u32_to_le_bytes(TCF_HEADER_LEN);
        container.append(&mut hlen);
        let mut vbytes = vstd::bytes::u16_to_le_bytes(2);
        container.append(&mut vbytes);
        let mut fbytes = vstd::bytes::u32_to_le_bytes(
            TcfFlags::UNICODE_NORMALIZED | TcfFlags::ADAPTIVE_MODEL,
        );
        container.append(&mut fbytes);
        let mut osbytes = vstd::bytes::u64_to_le_bytes(original_size);
        container.append(&mut osbytes);
        let mut csbytes = vstd::bytes::u64_to_le_bytes(compressed.len() as u64);
        container.append(&mut csbytes);
        let mut msbytes = vstd::bytes::u32_to_le_bytes(2048);
        container.append(&mut msbytes);
        let mut ckbytes = checksum.as_str().as_bytes_vec();
        container.append(&mut ckbytes);
        let mut model_part = model_data;
        container.append(&mut model_part);
        let mut payload_part = compressed;
        let ghost gpayload = payload_part@;
        container.append(&mut payload_part);
        proof {
            vstd::bytes::lemma_auto_spec_u16_to_from_le_bytes();
            vstd::bytes::lemma_auto_spec_u32_to_from_le_bytes();
            vstd::bytes::lemma_auto_spec_u64_to_from_le_bytes();
            crate::arith::lemma_counts_of_model(model);
            crate::arith::lemma_counts_bytes_len(crate::arith::counts_of_model(model), 256);
            assert(crate::arith::counts_of_model(model) =~= occurrence_counts(gdata));
            assert(container@ =~= tcf_container_spec(gdata, gpayload));
            assert(gpayload == tcf_payload_bytes(gdata));
        }
        Ok(container)
    }

    /// Decode a TCF container.  The magic, header length, version and region
    /// bounds are validated; the model is deserialized; exactly
    /// `original_size` bytes are decoded; the stored digest must match the
    /// digest of the decoded bytes, and the bytes must be valid UTF-8 — both
    /// mismatches are fatal.
    pub fn decode(tcf_data: &[u8]) -> (r: Result<String, CodecError>)
        ensures
            match r {
                Ok(s) => {
                    &&& tcf_frame_ok(tcf_data@)
                    &&& tcf_fields(tcf_data@).0 == 2
                    &&& vstd::utf8::encode_utf8(s@).len() == tcf_fields(tcf_data@).2
                    &&& vstd::utf8::encode_utf8(
                        sha256_hex_of(vstd::utf8::encode_utf8(s@)),
                    ) == tcf_fields(tcf_data@).5
                },
                Err(e) => e is InvalidFormat ==> !tcf_frame_ok(tcf_data@) || !tcf_bounds_ok(
                    tcf_data@,
                ),
            },
            !tcf_frame_ok(tcf_data@) ==> r is Err && r->Err_0 is InvalidFormat,
            tcf_frame_ok(tcf_data@) && tcf_fields(tcf_data@).0 != 2 ==> r is Err
                && r->Err_0 is UnsupportedVersion && r->Err_0->UnsupportedVersion_0 == tcf_fields(
                tcf_data@,
            ).0,
            tcf_frame_ok(tcf_data@) && tcf_fields(tcf_data@).0 == 2 && !tcf_bounds_ok(tcf_data@)
                ==> r is Err && r->Err_0 is InvalidFormat,
            tcf_frame_ok(tcf_data@) && tcf_fields(tcf_data@).0 == 2 && tcf_bounds_ok(tcf_data@)
                && !tcf_model_ok(tcf_data@) ==> r is Err && r->Err_0 is CorruptedData,
            tcf_frame_ok(tcf_data@) && tcf_fields(tcf_data@).0 == 2 && tcf_bounds_ok(tcf_data@)
                && tcf_model_ok(tcf_data@) && !tcf_coding_ok(tcf_data@) ==> r is Err
                && r->Err_0 is EntropyCoding,
            tcf_frame_ok(tcf_data@) && tcf_fields(tcf_data@).0 == 2 && tcf_bounds_ok(tcf_data@)
                && tcf_model_ok(tcf_data@) && tcf_coding_ok(tcf_data@) ==> r is Ok || (r is Err
                && (r->Err_0 is CorruptedData || r->Err_0 is Unicode)),
            tcf_frame_ok(tcf_data@) && tcf_fields(tcf_data@).0 == 2 && tcf_bounds_ok(tcf_data@)
                && tcf_model_ok(tcf_data@) && tcf_coding_ok(tcf_data@) ==> ({
                let db = tcf_decoded_bytes(tcf_data@);
                &&& (r is Ok ==> vstd::utf8::encode_utf8(r->Ok_0@) == db)
                &&& (vstd::utf8::encode_utf8(sha256_hex_of(db)) == tcf_fields(tcf_data@).5
                    && vstd::utf8::valid_utf8(db)) ==> (r is Ok && r->Ok_0@
                    == vstd::utf8::decode_utf8(db))
                &&& (vstd::utf8::encode_utf8(sha256_hex_of(db)) != tcf_fields(tcf_data@).5)
                    ==> (r is Err && r->Err_0 is CorruptedData)
                &&& (vstd::utf8::encode_utf8(sha256_hex_of(db)) == tcf_fields(tcf_data@).5
                    && !vstd::utf8::valid_utf8(db)) ==> (r is Err && r->Err_0 is Unicode)
            }),
    {
        if tcf_data.len() < 8 {
            return Err(CodecError::InvalidFormat(String::new()));
        }
        if !(tcf_data[0] == 0x54 && tcf_data[1] == 0x43 && tcf_data[2] == 0x46 && tcf_data[3]
            == 0x32) {
            proof {
                assert(tcf_data@.subrange(0, 4) != tcf_magic());
            }
            return Err(CodecError::InvalidFormat(String::new()));
        }
        proof {
            assert(tcf_data@.subrange(0, 4) =~= tcf_magic());
        }
        let header_size = vstd::bytes::u32_from_le_bytes(
            vstd::slice::slice_subrange(tcf_data, 4, 8),
        );
        if header_size != TCF_HEADER_LEN {
            return Err(CodecError::InvalidFormat(String::new()));
        }
        if tcf_data.len() < 98 {
            return Err(CodecError::InvalidFormat(String::new()));
        }
        proof {
            assert(tcf_frame_ok(tcf_data@));
        }
        let version = vstd::bytes::u16_from_le_bytes(
            vstd::slice::slice_subrange(tcf_data, 8, 10),
        );
        if version != 2 {
            return Err(CodecError::UnsupportedVersion(version as u32));
        }
        let original_size = vstd::bytes::u64_from_le_bytes(
            vstd::slice::slice_subrange(tcf_data, 14, 22),
        );
        let model_size = vstd::bytes::u32_from_le_bytes(
            vstd::slice::slice_subrange(tcf_data, 30, 34),
        );
        let stored_checksum = vstd::slice::slice_to_vec(
            vstd::slice::slice_subrange(tcf_data, 34, 98),
        );
        if tcf_data.len() - 98 < model_size as usize {
            proof {
                assert(!tcf_bounds_ok(tcf_data@));
            }
            return Err(CodecError::InvalidFormat(String::new()));
        }
        proof {
            assert(tcf_bounds_ok(tcf_data@));
        }
        let model_end = 98 + model_size as usize;
        let model_bytes = vstd::slice::slice_subrange(tcf_data, 98, model_end);
        proof {
            assert(model_bytes@ =~= tcf_model_region(tcf_data@));
        }
        let model = match FrequencyModel::deserialize(model_bytes) {
            Ok(m) => m,
            Err(e) => {
                proof {
                    assert(!tcf_model_ok(tcf_data@));
                }
                return Err(CodecError::CorruptedData(String::new()));
            },
        };
        proof {
            assert(tcf_model_ok(tcf_data@));
            assert(model.spec_total() == tcf_total(tcf_data@));
        }
        let total = model.total_frequency();
        if original_size > 0 && (total == 0 || total > QUARTER) {
            proof {
                assert(!tcf_coding_ok(tcf_data@));
            }
            return Err(CodecError::EntropyCoding(String::new()));
        }
        if original_size > usize::MAX as u64 - 1 {
            proof {
                assert(!tcf_coding_ok(tcf_data@));
            }
            return Err(CodecError::EntropyCoding(String::new()));
        }
        proof {
            assert(tcf_coding_ok(tcf_data@));
        }
        let compressed = vstd::slice::slice_to_vec(
            vstd::slice::slice_subrange(tcf_data, model_end, tcf_data.len()),
        );
        let ghost gcounts = decoded_counts(tcf_model_region(tcf_data@));
        let ghost gpayload = compressed@;
        proof {
            assert(gpayload =~= tcf_data@.skip(98 + tcf_fields(tcf_data@).4 as int));
            assert(forall|b: int| 0 <= b < 256 ==> gcounts[b] == model.count_of(b as u8));
            assert(total as int == counts_sum(gcounts, 256));
        }
        let mut decoder = ArithmeticDecoder::new(compressed);
        let mut decoded_bytes: Vec<u8> = Vec::new();
        let count = original_size as usize;
        let mut i: usize = 0;
        while i < count
            invariant
                i <= count,
                decoded_bytes@.len() == i,
                model.wf(),
                decoder.wf(),
                total == model.spec_total(),
                count > 0 ==> 1 <= model.spec_total() <= QUARTER,
                gcounts.len() == 256,
                forall|b: int| 0 <= b < 256 ==> gcounts[b] == model.count_of(b as u8),
                total as int == counts_sum(gcounts, 256),
                decoder.spec_input() == gpayload,
                ({
                    let (st, bs) = tcf_decode_run(gcounts, gpayload, i as int);
                    &&& decoder.spec_low() as int == st.0
                    &&& decoder.spec_high() as int == st.1
                    &&& decoder.spec_value() as int == st.2
                    &&& st.3 >= 0
                    &&& decoder.spec_cursor() == vstd::math::min(
                        st.3,
                        8 * gpayload.len() as int,
                    )
                    &&& decoded_bytes@ == bs
                }),
            decreases count - i,
        {
            let ghost (g_st, g_bs) = tcf_decode_run(gcounts, gpayload, i as int);
            let value = decoder.get_symbol_value(total);
            proof {
                crate::arith::lemma_lookup_matches_counts(model, gcounts, value as int);
            }
            match model.get_range_from_value(value) {
                Some((symbol, low, high)) => {
                    decoded_bytes.push(symbol);
                    let ghost pre_cursor = decoder.spec_cursor();
                    proof {
                        crate::arith::lemma_decoder_wf_bounds(decoder);
                    }
                    decoder.decode_symbol(low, high, total);
                    proof {
                        let lo = low as int;
                        let hi = high as int;
                        let nl = narrow_low(g_st.0, g_st.1, lo, total as int);
                        let nh = narrow_high(g_st.0, g_st.1, hi, total as int);
                        crate::arith::lemma_narrow_bounds(
                            g_st.0,
                            g_st.1,
                            lo,
                            hi,
                            total as int,
                        );
                        crate::arith::lemma_renorm_top_in_range(nl, nh, 0);
                        let s1 = renorm_top_dec(nl, nh, g_st.2, g_st.3, gpayload);
                        let s1x = renorm_top_dec(nl, nh, g_st.2, pre_cursor, gpayload);
                        crate::arith::lemma_renorm_top_dec_state(
                            nl,
                            nh,
                            g_st.2,
                            g_st.3,
                            gpayload,
                        );
                        crate::arith::lemma_renorm_top_dec_state(
                            nl,
                            nh,
                            g_st.2,
                            pre_cursor,
                            gpayload,
                        );
                        crate::arith::lemma_renorm_dec_cursor_monotone(
                            nl,
                            nh,
                            g_st.2,
                            g_st.3,
                            gpayload,
                        );
                        crate::arith::lemma_renorm_dec_cursor_monotone(
                            nl,
                            nh,
                            g_st.2,
                            pre_cursor,
                            gpayload,
                        );
                        if g_st.3 > 8 * gpayload.len() as int {
                            crate::arith::lemma_renorm_top_dec_past_end(
                                nl,
                                nh,
                                g_st.2,
                                g_st.3,
                                pre_cursor,
                                gpayload,
                            );
                            crate::arith::lemma_renorm_middle_dec_past_end(
                                s1.0,
                                s1.1,
                                s1.2,
                                s1.3,
                                s1x.3,
                                gpayload,
                            );
                        }
                        crate::arith::lemma_renorm_dec_cursor_monotone(
                            s1.0,
                            s1.1,
                            s1.2,
                            s1.3,
                            gpayload,
                        );
                        crate::arith::lemma_renorm_dec_cursor_monotone(
                            s1x.0,
                            s1x.1,
                            s1x.2,
                            s1x.3,
                            gpayload,
                        );
                        crate::arith::lemma_renorm_middle_dec_state(
                            s1.0,
                            s1.1,
                            s1.2,
                            s1.3,
                            gpayload,
                        );
                        crate::arith::lemma_renorm_middle_dec_state(
                            s1x.0,
                            s1x.1,
                            s1x.2,
                            s1x.3,
                            gpayload,
                        );
                        crate::arith::lemma_renorm_middle_pending_irrelevant(
                            s1.0,
                            s1.1,
                            crate::arith::renorm_top(nl, nh, 0).2,
                            0,
                        );
                    }
                },
                None => {
                    proof {
                        assert(value < total);
                        assert(false);
                    }
                    return Err(CodecError::EntropyCoding(String::new()));
                },
            }
            i = i + 1;
        }
        proof {
            assert(decoded_bytes@ == tcf_decoded_bytes(tcf_data@));
        }

        let actual_checksum = sha256_hex(decoded_bytes.as_slice());
        let actual_bytes = actual_checksum.as_str().as_bytes_vec();
        if !bytes_equal(actual_bytes.as_slice(), stored_checksum.as_slice()) {
            proof {
                assert(tcf_data@.subrange(34, 98) =~= stored_checksum@);
            }
            return Err(CodecError::CorruptedData(String::new()));
        }
        proof {
            assert(tcf_data@.subrange(34, 98) =~= stored_checksum@);
        }

        let ghost db = decoded_bytes@;
        match string_from_utf8(decoded_bytes) {
            Some(text) => {
                proof {
                    vstd::utf8::decode_utf8_encode_utf8(db);
                }
                Ok(text)
            },
            None => Err(CodecError::Unicode(String::new())),
        }
    }

    /// Parse the container header without decoding the stream.  Succeeds on
    /// a structurally valid container whose digest field is text, whatever
    /// the version; the magic and method strings are fixed by the format.
    pub fn parse_header(tcf_data: &[u8]) -> (r: Result<TcfHeader, CodecError>)
        ensures
            match r {
                Ok(h) => {
                    &&& tcf_frame_ok(tcf_data@)
                    &&& h.magic@ == seq!['T', 'C', 'F', '2']
                    &&& h.compression_method@ == seq![
                        'a',
                        'r',
                        'i',
                        't',
                        'h',
                        'm',
                        'e',
                        't',
                        'i',
                        'c',
                    ]
                    &&& h.version == tcf_fields(tcf_data@).0
                    &&& h.flags == tcf_fields(tcf_data@).1
                    &&& h.original_size == tcf_fields(tcf_data@).2
                    &&& h.compressed_size == tcf_fields(tcf_data@).3
                    &&& h.model_size == tcf_fields(tcf_data@).4
                    &&& vstd::utf8::encode_utf8(h.checksum@) == tcf_fields(tcf_data@).5
                },
                Err(e) => !tcf_frame_ok(tcf_data@) || !vstd::utf8::valid_utf8(
                    tcf_fields(tcf_data@).5,
                ),
            },
    {
        if tcf_data.len() < 8 {
            return Err(CodecError::InvalidFormat(String::new()));
        }
        if !(tcf_data[0] == 0x54 && tcf_data[1] == 0x43 && tcf_data[2] == 0x46 && tcf_data[3]
            == 0x32) {
            proof {
                assert(tcf_data@.subrange(0, 4) != tcf_magic());
            }
            return Err(CodecError::InvalidFormat(String::new()));
        }
        proof {
            assert(tcf_data@.subrange(0, 4) =~= tcf_magic());
        }
        let header_size = vstd::bytes::u32_from_le_bytes(
            vstd::slice::slice_subrange(tcf_data, 4, 8),
        );
        if header_size != TCF_HEADER_LEN {
            return Err(CodecError::InvalidFormat(String::new()));
        }
        if tcf_data.len() < 98 {
            return Err(CodecError::InvalidFormat(String::new()));
        }
        let version = vstd::bytes::u16_from_le_bytes(
            vstd::slice::slice_subrange(tcf_data, 8, 10),
        );
        let flags = vstd::bytes::u32_from_le_bytes(
            vstd::slice::slice_subrange(tcf_data, 10, 14),
        );
        let original_size = vstd::bytes::u64_from_le_bytes(
            vstd::slice::slice_subrange(tcf_data, 14, 22),
        );
        let compressed_size = vstd::bytes::u64_from_le_bytes(
            vstd::slice::slice_subrange(tcf_data, 22, 30),
        );
        let model_size = vstd::bytes::u32_from_le_bytes(
            vstd::slice::slice_subrange(tcf_data, 30, 34),
        );
        let checksum_bytes = vstd::slice::slice_to_vec(
            vstd::slice::slice_subrange(tcf_data, 34, 98),
        );
        let checksum = match string_from_utf8(checksum_bytes) {
            Some(s) => s,
            None => {
                return Err(CodecError::InvalidFormat(String::new()));
            },
        };
        proof {
            vstd::utf8::decode_utf8_encode_utf8(tcf_data@.subrange(34, 98));
        }
        let mut magic = String::new();
        magic.append("TCF2");
        let mut method = String::new();
        method.append("arithmetic");
        proof {
            reveal_strlit("TCF2");
            reveal_strlit("arithmetic");
            assert(magic@ =~= seq!['T', 'C', 'F', '2']);
            assert(method@ =~= seq!['a', 'r', 'i', 't', 'h', 'm', 'e', 't', 'i', 'c']);
        }
        Ok(
            TcfHeader {
                magic,
                version,
                flags,
                original_size,
                compressed_size,
                checksum,
                model_size,
                compression_method: method,
            },
        )
    }
}

/// Compare two byte slices for equality.
pub fn bytes_equal(a: &[u8], b: &[u8]) -> (r: bool)
    ensures
        r <==> a@ == b@,
{
    if a.len() != b.len() {
        proof {
            assert(a@ != b@);
        }
        return false;
    }
    let n = a.len();
    let mut i: usize = 0;
    while i < n
        invariant
            i <= n,
            n == a@.len() == b@.len(),
            forall|k: int| 0 <= k < i ==> a@[k] == b@[k],
        decreases n - i,
    {
        if a[i] != b[i] {
            return false;
        }
        i = i + 1;
    }
    proof {
        assert(a@ =~= b@);
    }
    true
}

} // verus!
