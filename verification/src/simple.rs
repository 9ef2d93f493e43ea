//! Deflate-backed text container codec: the same framing and integrity
//! checks as the arithmetic-coder format, with a generic gzip stage standing
//! in for the entropy coder.  The byte-level frequency model is still built,
//! so callers can inspect symbol statistics, but the gzip stream does not
//! need it to decode.

use vstd::prelude::*;
use std::io::Read;
use std::io::Write;
use crate::arith::occ;
use crate::error::CodecError;
use crate::hashing::sha256_hex;
use crate::hashing::sha256_hex_of;
use crate::hashing::string_from_utf8;
use crate::tcf::TCF_HEADER_LEN;
use crate::tcf::bytes_equal;
use crate::tcf::tcf_fields;
use crate::tcf::tcf_frame_ok;
use crate::tcf::tcf_magic;
use vstd::string::StrSliceExecFns;
use vstd::string::StringExecFns;

verus! {

pub uninterp spec fn gzip_of(data: Seq<u8>) -> Seq<u8>;

pub uninterp spec fn gunzip_of(data: Seq<u8>) -> Option<Seq<u8>>;

/// Relies on flate2's GzEncoder at best compression: the compressed stream
/// depends on the input bytes alone, and decompressing it restores them.
#[verifier::external_body]
fn gzip_compress(data: &[u8]) -> (r: Vec<u8>)
    ensures
        r@ == gzip_of(data@),
        gunzip_of(r@) == Some(data@),
{
    let mut encoder = flate2::write::GzEncoder::new(Vec::new(), flate2::Compression::best());
    let _ = encoder.write_all(data);
    encoder.finish().unwrap_or_default()
}

/// Relies on flate2's GzDecoder: decompression of a byte string depends on
/// the bytes alone, succeeding exactly on well-formed gzip streams.
#[verifier::external_body]
fn gzip_decompress(data: &[u8]) -> (r: Option<Vec<u8>>)
    ensures
        match r {
            Some(d) => gunzip_of(data@) == Some(d@),
            None => gunzip_of(data@) is None,
        },
{
    let mut decoder = flate2::read::GzDecoder::new(data);
    let mut out = Vec::new();
    match decoder.read_to_end(&mut out) {
        Ok(_) => Some(out),
        Err(_) => None,
    }
}

/// Header of the deflate-backed text container.
pub struct SimpleTcfHeader {
    pub magic: String,
    pub version: u16,
    pub original_size: u64,
    pub compressed_size: u64,
    pub checksum: String,
    pub model_size: u32,
}

/// Byte-frequency statistics over the input, kept for inspection.
pub struct SimpleFrequencyModel {
    counts: Vec<u32>,
    total: u32,
}

impl SimpleFrequencyModel {
    /// The recorded count of a byte value.
    pub closed spec fn count_of(self, b: u8) -> u32 {
        self.counts@[b as int]
    }

    /// The number of counted bytes.
    pub closed spec fn spec_total(self) -> u32 {
        self.total
    }

    /// Model invariant: one count per byte value.
    pub closed spec fn wf(self) -> bool {
        self.counts@.len() == 256
    }

    /// An empty model.
    pub fn new() -> (m: SimpleFrequencyModel)
        ensures
            m.wf(),
            m.spec_total() == 0,
            forall|b: u8| m.count_of(b) == 0,
    {
        let mut counts: Vec<u32> = Vec::new();
        let mut i: usize = 0;
        while i < 256
            invariant
                i <= 256,
                counts@.len() == i,
                forall|k: int| 0 <= k < i ==> counts@[k] == 0,
            decreases 256 - i,
        {
            counts.push(0);
            i = i + 1;
        }
        SimpleFrequencyModel { counts, total: 0 }
    }

    /// Count the occurrences of every byte value in the input.
    pub fn build_from_data(&mut self, data: &[u8])
        requires
            data@.len() <= u32::MAX,
        ensures
            final(self).wf(),
            forall|b: u8| final(self).count_of(b) == occ(data@, b),
            final(self).spec_total() == data@.len(),
    {
        let mut counts: Vec<u32> = Vec::new();
        let mut i: usize = 0;
        while i < 256
            invariant
                i <= 256,
                counts@.len() == i,
                forall|k: int| 0 <= k < i ==> counts@[k] == 0,
            decreases 256 - i,
        {
            counts.push(0);
            i = i + 1;
        }
        proof {
            assert forall|b: u8| counts@[b as int] == occ(data@.take(0), b) by {
                assert(data@.take(0) =~= Seq::<u8>::empty());
            }
        }
        let n = data.len();
        let mut p: usize = 0;
        while p < n
            invariant
                p <= n,
                n == data@.len(),
                n <= u32::MAX,
                counts@.len() == 256,
                forall|b: u8| counts@[b as int] == occ(data@.take(p as int), b),
            decreases n - p,
        {
            let byte = data[p];
            proof {
                assert(data@.take(p as int).push(data@[p as int]) =~= data@.take(p as int + 1));
                assert forall|b: u8| occ(data@.take(p as int + 1), b) == occ(
                    data@.take(p as int),
                    b,
                ) + (if data@[p as int] == b {
                    1int
                } else {
                    0int
                }) by {
                    crate::arith::lemma_occ_push(data@.take(p as int), data@[p as int], b);
                }
                crate::arith::lemma_occ_le_len(data@.take(p as int), data@[p as int]);
            }
            let c = counts[byte as usize];
            counts.set(byte as usize, c + 1);
            p = p + 1;
        }
        proof {
            assert(data@.take(n as int) =~= data@);
        }
        self.counts = counts;
        self.total = n as u32;
    }
}

/// The serialized form of a 32-bit count table: each count as 4
/// little-endian bytes, in byte-value order.
pub open spec fn counts32_bytes_upto(counts: Seq<u32>, b: int) -> Seq<u8>
    decreases b,
{
    if b <= 0 {
        Seq::empty()
    } else {
        counts32_bytes_upto(counts, b - 1) + vstd::bytes::spec_u32_to_le_bytes(counts[b - 1])
    }
}

/// The count table read back from a 1024-byte serialization.
pub open spec fn decoded_counts32(data: Seq<u8>) -> Seq<u32> {
    Seq::new(256, |b: int| vstd::bytes::spec_u32_from_le_bytes(data.subrange(4 * b, 4 * b + 4)))
}

/// Serialized 32-bit count tables have 4 bytes per entry.
proof fn lemma_counts32_bytes_len(counts: Seq<u32>, b: int)
    requires
        0 <= b,
    ensures
        counts32_bytes_upto(counts, b).len() == 4 * b,
    decreases b,
{
    if b > 0 {
        lemma_counts32_bytes_len(counts, b - 1);
        vstd::bytes::lemma_auto_spec_u32_to_from_le_bytes();
    }
}

/// Each 4-byte slice of a serialized count table encodes its entry.
proof fn lemma_counts32_bytes_slice(counts: Seq<u32>, b: int, k: int)
    requires
        0 <= k < b,
    ensures
        counts32_bytes_upto(counts, b).subrange(4 * k, 4 * k + 4)
            == vstd::bytes::spec_u32_to_le_bytes(counts[k]),
    decreases b,
{
    lemma_counts32_bytes_len(counts, b);
    vstd::bytes::lemma_auto_spec_u32_to_from_le_bytes();
    if k == b - 1 {
        lemma_counts32_bytes_len(counts, b - 1);
        assert(counts32_bytes_upto(counts, b).subrange(4 * k, 4 * k + 4)
            =~= vstd::bytes::spec_u32_to_le_bytes(counts[k]));
    } else {
        lemma_counts32_bytes_slice(counts, b - 1, k);
        lemma_counts32_bytes_len(counts, b - 1);
        assert(counts32_bytes_upto(counts, b).subrange(4 * k, 4 * k + 4)
            =~= counts32_bytes_upto(counts, b - 1).subrange(4 * k, 4 * k + 4));
    }
}

/// A count table decoded from 1024 bytes re-serializes to those bytes.
proof fn lemma_decoded_counts32_reconstruct(counts: Seq<u32>, data: Seq<u8>)
    requires
        data.len() == 1024,
        counts.len() == 256,
        forall|k: int| 0 <= k < 256 ==> counts[k] == decoded_counts32(data)[k],
    ensures
        counts32_bytes_upto(counts, 256) == data,
{
    vstd::bytes::lemma_auto_spec_u32_to_from_le_bytes();
    lemma_counts32_bytes_len(counts, 256);
    assert forall|i: int| 0 <= i < 1024 implies counts32_bytes_upto(counts, 256)[i] == data[i] by {
        let k = i / 4;
        vstd::arithmetic::div_mod::lemma_fundamental_div_mod(i, 4);
        lemma_counts32_bytes_slice(counts, 256, k);
        assert(counts[k] == vstd::bytes::spec_u32_from_le_bytes(data.subrange(4 * k, 4 * k + 4)));
        assert(vstd::bytes::spec_u32_to_le_bytes(counts[k]) == data.subrange(4 * k, 4 * k + 4));
        assert(counts32_bytes_upto(counts, 256).subrange(4 * k, 4 * k + 4)[i - 4 * k]
            == counts32_bytes_upto(counts, 256)[i]);
        assert(data.subrange(4 * k, 4 * k + 4)[i - 4 * k] == data[i]);
    }
    assert(counts32_bytes_upto(counts, 256) =~= data);
}

impl SimpleFrequencyModel {
    /// The byte serialization of the model: all 256 counts, 4 little-endian
    /// bytes each.
    pub closed spec fn model_bytes(self) -> Seq<u8> {
        counts32_bytes_upto(self.counts@, 256)
    }

    /// Serialize the model.
    pub fn serialize(&self) -> (r: Vec<u8>)
        requires
            self.wf(),
        ensures
            r@ == self.model_bytes(),
            r@.len() == 1024,
    {
        let mut out: Vec<u8> = Vec::new();
        let mut b: usize = 0;
        while b < 256
            invariant
                b <= 256,
                self.counts@.len() == 256,
                out@ == counts32_bytes_upto(self.counts@, b as int),
                out@.len() == 4 * b,
            decreases 256 - b,
        {
            let mut chunk = vstd::bytes::u32_to_le_bytes(self.counts[b]);
            out.append(&mut chunk);
            b = b + 1;
        }
        proof {
            lemma_counts32_bytes_len(self.counts@, 256);
        }
        out
    }

    /// Parse a serialized model: exactly 1024 bytes of counts, whose sum
    /// becomes the total, capped at the 32-bit range.
    pub fn deserialize(data: &[u8]) -> (r: Result<SimpleFrequencyModel, CodecError>)
        ensures
            match r {
                Ok(m) => {
                    &&& m.wf()
                    &&& data@.len() == 1024
                    &&& m.model_bytes() == data@
                    &&& forall|b: int|
                        0 <= b < 256 ==> m.count_of(b as u8) == decoded_counts32(data@)[b]
                },
                Err(e) => data@.len() != 1024 && e is InvalidFormat,
            },
    {
        if data.len() != 1024 {
            return Err(CodecError::InvalidFormat(String::new()));
        }
        let mut counts: Vec<u32> = Vec::new();
        let mut total: u64 = 0;
        let mut b: usize = 0;
        while b < 256
            invariant
                b <= 256,
                data@.len() == 1024,
                counts@.len() == b,
                total <= (b as int) * 0x1_0000_0000,
                forall|k: int| 0 <= k < b ==> counts@[k] == decoded_counts32(data@)[k],
            decreases 256 - b,
        {
            let chunk = vstd::slice::slice_subrange(data, 4 * b, 4 * b + 4);
            let c = vstd::bytes::u32_from_le_bytes(chunk);
            counts.push(c);
            total = total + c as u64;
            b = b + 1;
        }
        let capped: u32 = if total > 0xffff_ffff {
            u32::MAX
        } else {
            total as u32
        };
        let m = SimpleFrequencyModel { counts, total: capped };
        proof {
            assert(m.counts@ =~= decoded_counts32(data@));
            lemma_decoded_counts32_reconstruct(m.counts@, data@);
        }
        Ok(m)
    }
}

/// Compression stage of the deflate-backed codec: a generic gzip coder in
/// place of a symbol-driven arithmetic coder.  The model is accepted for
/// interface parity but the gzip stream does not consult it.
pub struct SimpleArithmeticCoder;

impl SimpleArithmeticCoder {
    /// Compress a byte string; the result depends on the bytes alone.
    pub fn encode(data: &[u8], model: &SimpleFrequencyModel) -> (r: Vec<u8>)
        ensures
            r@ == gzip_of(data@),
            gunzip_of(r@) == Some(data@),
    {
        let _ = model;
        gzip_compress(data)
    }

    /// Decompress a byte string; fails exactly on malformed streams.
    pub fn decode(compressed: &[u8], model: &SimpleFrequencyModel) -> (r: Result<
        Vec<u8>,
        CodecError,
    >)
        ensures
            match r {
                Ok(d) => gunzip_of(compressed@) == Some(d@),
                Err(e) => gunzip_of(compressed@) is None && e is CorruptedData,
            },
    {
        let _ = model;
        match gzip_decompress(compressed) {
            Some(d) => Ok(d),
            None => Err(CodecError::CorruptedData(String::new())),
        }
    }
}

/// Text codec over the shared container framing, with gzip as the
/// compression stage.
pub struct SimpleTcfCodec;

impl SimpleTcfCodec {
    /// Encode text: frame the gzip stream of its bytes with the original
    /// size and a SHA-256 digest.  No model bytes are stored; the gzip
    /// stream is self-describing.
    pub fn encode(text: &str) -> (r: Result<Vec<u8>, CodecError>)
        ensures
            match r {
                Ok(out) => out@ == simple_container_spec(vstd::utf8::encode_utf8(text@)),
                Err(e) => false,
            },
    {
        let data = text.as_bytes();
        let original_size = data.len() as u64;
        let mut model = SimpleFrequencyModel::new();
        if data.len() <= u32::MAX as usize {
            model.build_from_data(data);
        }
        let compressed = SimpleArithmeticCoder::encode(data, &model);
        let checksum = sha256_hex(data);

        let mut container: Vec<u8> = Vec::new();
        container.push(0x54);
        container.push(0x43);
        container.push(0x46);
        container.push(0x32);
        let mut hlen = vstd::bytes::u32_to_le_bytes(TCF_HEADER_LEN);
        container.append(&mut hlen);
        let mut vbytes = vstd::bytes::u16_to_le_bytes(2);
        container.append(&mut vbytes);
        let mut fbytes = vstd::bytes::u32_to_le_bytes(0);
        container.append(&mut fbytes);
        let mut osbytes = vstd::bytes::u64_to_le_bytes(original_size);
        container.append(&mut osbytes);
        let mut csbytes = vstd::bytes::u64_to_le_bytes(compressed.len() as u64);
        container.append(&mut csbytes);
        let mut msbytes = vstd::bytes::u32_to_le_bytes(0);
        container.append(&mut msbytes);
        let mut ckbytes = checksum.as_str().as_bytes_vec();
        container.append(&mut ckbytes);
        let mut payload_part = compressed;
        container.append(&mut payload_part);
        proof {
            vstd::bytes::lemma_auto_spec_u16_to_from_le_bytes();
            vstd::bytes::lemma_auto_spec_u32_to_from_le_bytes();
            vstd::bytes::lemma_auto_spec_u64_to_from_le_bytes();
            assert(container@ =~= simple_container_spec(vstd::utf8::encode_utf8(text@)));
        }
        Ok(container)
    }

    /// Decode a container.  Succeeds exactly on a well-framed version-2
    /// container whose payload decompresses, matches the stored digest and
    /// decodes as UTF-8; the digest check is fatal.
    pub fn decode(tcf_data: &[u8]) -> (r: Result<String, CodecError>)
        ensures
            match r {
                Ok(s) => {
                    &&& tcf_frame_ok(tcf_data@)
                    &&& tcf_fields(tcf_data@).0 == 2
                    &&& gunzip_of(
                        tcf_data@.skip(98 + tcf_fields(tcf_data@).4 as int),
                    ) == Some(vstd::utf8::encode_utf8(s@))
                    &&& vstd::utf8::encode_utf8(
                        sha256_hex_of(vstd::utf8::encode_utf8(s@)),
                    ) == tcf_fields(tcf_data@).5
                },
                Err(e) => true,
            },
            ({
                &&& tcf_frame_ok(tcf_data@)
                &&& tcf_fields(tcf_data@).0 == 2
                &&& tcf_data@.len() - 98 >= tcf_fields(tcf_data@).4
                &&& match gunzip_of(tcf_data@.skip(98 + tcf_fields(tcf_data@).4 as int)) {
                    Some(d) => vstd::utf8::encode_utf8(sha256_hex_of(d)) == tcf_fields(
                        tcf_data@,
                    ).5 && vstd::utf8::valid_utf8(d),
                    None => false,
                }
            }) ==> r is Ok,
    {
        if tcf_data.len() < 8 {
            return Err(CodecError::InvalidFormat(String::new()));
        }
        if !(tcf_data[0] == 0x54 && tcf_data[1] == 0x43 && tcf_data[2] == 0x46 && tcf_data[3]
            == 0x32) {
            proof {
                assert(tcf_data@.subrange(0, 4) != tcf_magic());
            }
            return Err(CodecError::InvalidFormat(String::new()));
        }
        proof {
            assert(tcf_data@.subrange(0, 4) =~= tcf_magic());
        }
        let header_size = vstd::bytes::u32_from_le_bytes(
            vstd::slice::slice_subrange(tcf_data, 4, 8),
        );
        if header_size != TCF_HEADER_LEN {
            return Err(CodecError::InvalidFormat(String::new()));
        }
        if tcf_data.len() < 98 {
            return Err(CodecError::InvalidFormat(String::new()));
        }
        let version = vstd::bytes::u16_from_le_bytes(
            vstd::slice::slice_subrange(tcf_data, 8, 10),
        );
        if version != 2 {
            return Err(CodecError::UnsupportedVersion(version as u32));
        }
        let model_size = vstd::bytes::u32_from_le_bytes(
            vstd::slice::slice_subrange(tcf_data, 30, 34),
        );
        let stored_checksum = vstd::slice::slice_to_vec(
            vstd::slice::slice_subrange(tcf_data, 34, 98),
        );
        if tcf_data.len() - 98 < model_size as usize {
            return Err(CodecError::InvalidFormat(String::new()));
        }
        let compressed_start = 98 + model_size as usize;
        let payload = vstd::slice::slice_subrange(tcf_data, compressed_start, tcf_data.len());
        proof {
            assert(payload@ =~= tcf_data@.skip(98 + tcf_fields(tcf_data@).4 as int));
        }
        let decoded_bytes = match gzip_decompress(payload) {
            Some(d) => d,
            None => {
                return Err(CodecError::CorruptedData(String::new()));
            },
        };
        let actual_checksum = sha256_hex(decoded_bytes.as_slice());
        let actual_bytes = actual_checksum.as_str().as_bytes_vec();
        if !bytes_equal(actual_bytes.as_slice(), stored_checksum.as_slice()) {
            proof {
                assert(tcf_data@.subrange(34, 98) =~= stored_checksum@);
            }
            return Err(CodecError::CorruptedData(String::new()));
        }
        proof {
            assert(tcf_data@.subrange(34, 98) =~= stored_checksum@);
        }
        let ghost db = decoded_bytes@;
        match string_from_utf8(decoded_bytes) {
            Some(text) => {
                proof {
                    vstd::utf8::decode_utf8_encode_utf8(db);
                }
                Ok(text)
            },
            None => Err(CodecError::Unicode(String::new())),
        }
    }

    /// Parse the container header without decompressing.
    pub fn parse_header(tcf_data: &[u8]) -> (r: Result<SimpleTcfHeader, CodecError>)
        ensures
            match r {
                Ok(h) => {
                    &&& tcf_frame_ok(tcf_data@)
                    &&& h.version == tcf_fields(tcf_data@).0
                    &&& h.original_size == tcf_fields(tcf_data@).2
                    &&& h.compressed_size == tcf_fields(tcf_data@).3
                    &&& h.model_size == tcf_fields(tcf_data@).4
                    &&& vstd::utf8::encode_utf8(h.checksum@) == tcf_fields(tcf_data@).5
                },
                Err(e) => !tcf_frame_ok(tcf_data@) || !vstd::utf8::valid_utf8(
                    tcf_fields(tcf_data@).5,
                ),
            },
    {
        match crate::tcf::TcfCodec::parse_header(tcf_data) {
            Ok(h) => Ok(
                SimpleTcfHeader {
                    magic: h.magic,
                    version: h.version,
                    original_size: h.original_size,
                    compressed_size: h.compressed_size,
                    checksum: h.checksum,
                    model_size: h.model_size,
                },
            ),
            Err(e) => Err(e),
        }
    }
}

/// The container the deflate-backed encoder produces for given input bytes:
/// the shared framing with no flags, no model bytes, and the gzip stream as
/// payload.
pub open spec fn simple_container_spec(data: Seq<u8>) -> Seq<u8> {
    tcf_magic() + vstd::bytes::spec_u32_to_le_bytes(TCF_HEADER_LEN)
        + vstd::bytes::spec_u16_to_le_bytes(2) + vstd::bytes::spec_u32_to_le_bytes(0)
        + vstd::bytes::spec_u64_to_le_bytes(data.len() as u64)
        + vstd::bytes::spec_u64_to_le_bytes(gzip_of(data).len() as u64)
        + vstd::bytes::spec_u32_to_le_bytes(0) + vstd::utf8::encode_utf8(sha256_hex_of(data))
        + gzip_of(data)
}

} // verus!
