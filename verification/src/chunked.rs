//! The chunked text codec: range-coded characters inside the chunked TCF
//! file layout, with a CRC-32 check on the compressed chunk.  The encoder
//! writes header, model parameters, chunk table and data into an in-memory
//! buffer; the decoder reads them back.

use vstd::prelude::*;
use crate::bitstream::BitstreamReader;
use crate::bitstream::BitstreamWriter;
use crate::error::CodecError;
use crate::format::ChunkEntry;
use crate::format::ChunkType;
use crate::format::ModelParams;
use crate::hashing::crc32;
use crate::model::TextModel;
use crate::model::build_alphabet;
use crate::range_coder::RangeDecoder;
use crate::range_coder::RangeEncoder;
use crate::range_coder::freq_sum;
use vstd::string::StrSliceExecFns;

verus! {

/// Frequency given to every alphabet character by the static coding model.
pub const CHUNKED_CHAR_FREQ: u32 = 10;

/// The fixed 24-byte header the encoder writes: magic, version, flags and
/// three zero offsets.
pub open spec fn chunked_header_bytes() -> Seq<u8> {
    crate::format::tcf_v1_magic() + vstd::bytes::spec_u32_to_le_bytes(
        crate::format::TCF_VERSION,
    ) + vstd::bytes::spec_u32_to_le_bytes(0) + vstd::bytes::spec_u32_to_le_bytes(0)
        + vstd::bytes::spec_u32_to_le_bytes(0) + vstd::bytes::spec_u32_to_le_bytes(0)
}

/// The eight serialized model-parameter bytes.
pub open spec fn chunked_params_bytes(p: ModelParams) -> Seq<u8> {
    vstd::bytes::spec_u32_to_le_bytes(p.seed) + seq![
        p.max_order,
        p.adaptation_rate,
        (if p.use_escape {
            1u8
        } else {
            0u8
        }),
        (if p.use_dictionary {
            1u8
        } else {
            0u8
        }),
    ]
}

/// The whole chunked file for a given compressed payload: header, model
/// parameters, a one-entry chunk table binding the payload to its CRC-32,
/// then the payload.
pub open spec fn chunked_frame_bytes(p: ModelParams, payload: Seq<u8>) -> Seq<u8>
    recommends
        payload.len() <= u32::MAX,
{
    chunked_header_bytes() + chunked_params_bytes(p) + vstd::bytes::spec_u32_to_le_bytes(1)
        + vstd::bytes::spec_u32_to_le_bytes(0) + vstd::bytes::spec_u32_to_le_bytes(
        payload.len() as u32,
    ) + vstd::bytes::spec_u32_to_le_bytes(crate::hashing::crc32_of(payload))
        + vstd::bytes::spec_u32_to_le_bytes(0) + payload
}

/// Encoder for the chunked text format, writing to an in-memory buffer.
pub struct TcfEncoder {
    writer: BitstreamWriter,
    model_params: ModelParams,
}

impl TcfEncoder {
    /// The bytes written so far.
    pub closed spec fn spec_out(self) -> Seq<u8> {
        self.writer.spec_out()
    }

    /// A fresh encoder with the given model parameters.
    pub fn new(model_params: ModelParams) -> (r: TcfEncoder)
        ensures
            r.spec_out() == Seq::<u8>::empty(),
    {
        TcfEncoder { writer: BitstreamWriter::new(), model_params }
    }

    /// The model parameters the encoder was built with.
    pub closed spec fn spec_params(self) -> ModelParams {
        self.model_params
    }

    /// Encode text into the chunked layout: the fixed header, the model
    /// parameters, a chunk table whose entry carries the CRC-32 of the
    /// range-coded payload, then the payload itself.  Texts too large for
    /// the coder's 32-bit counters are rejected.
    pub fn encode(&mut self, text: &str) -> (r: Result<(), CodecError>)
        ensures
            old(self).spec_out().len() <= final(self).spec_out().len(),
            final(self).spec_params() == old(self).spec_params(),
            match r {
                Ok(()) => exists|payload: Seq<u8>|
                    payload.len() <= u32::MAX && final(self).spec_out() == old(self).spec_out()
                        + #[trigger] chunked_frame_bytes(old(self).spec_params(), payload),
                Err(e) => e is EntropyCoding || e is Io,
            },
    {
        let normalized = TextModel::normalize_text(text);
        let alphabet = build_alphabet(normalized.as_str());
        self.write_header_fields()?;
        self.write_model_params()?;
        let compressed_data = encode_text_data(normalized.as_str(), &alphabet)?;
        if compressed_data.len() > u32::MAX as usize {
            return Err(CodecError::EntropyCoding(String::new()));
        }

        let chunk = ChunkEntry {
            offset: 0,
            size: compressed_data.len() as u32,
            checksum: crc32(compressed_data.as_slice()),
            chunk_type: ChunkType::CompressedData,
        };
        self.write_chunk_table(&chunk)?;
        let ghost gpayload = compressed_data@;
        self.writer.write_bytes(compressed_data.as_slice())?;
        proof {
            assert(self.spec_out() =~= old(self).spec_out() + chunked_frame_bytes(
                old(self).spec_params(),
                gpayload,
            ));
        }
        Ok(())
    }

    /// Take the encoded bytes out.
    pub fn into_bytes(self) -> (r: Vec<u8>)
        ensures
            r@ == self.spec_out(),
    {
        self.writer.into_bytes()
    }

    /// Write the fixed header with zero offsets.
    fn write_header_fields(&mut self) -> (r: Result<(), CodecError>)
        ensures
            r is Ok,
            final(self).spec_out() == old(self).spec_out() + chunked_header_bytes(),
            final(self).model_params == old(self).model_params,
    {
        proof {
            vstd::bytes::lemma_auto_spec_u32_to_from_le_bytes();
        }
        let header = crate::format::TcfHeader::new();
        let magic: [u8; 4] = header.magic;
        self.writer.write_bytes(magic.as_slice())?;
        self.writer.write_u32(header.version)?;
        self.writer.write_u32(header.flags)?;
        self.writer.write_u32(header.model_params_offset)?;
        self.writer.write_u32(header.chunk_table_offset)?;
        self.writer.write_u32(header.data_offset)?;
        proof {
            assert(self.spec_out() =~= old(self).spec_out() + chunked_header_bytes());
        }
        Ok(())
    }

    /// Write the model parameters.
    fn write_model_params(&mut self) -> (r: Result<(), CodecError>)
        ensures
            r is Ok,
            final(self).spec_out() == old(self).spec_out() + chunked_params_bytes(
                old(self).model_params,
            ),
            final(self).model_params == old(self).model_params,
    {
        proof {
            vstd::bytes::lemma_auto_spec_u32_to_from_le_bytes();
        }
        let p_seed = self.model_params.seed;
        let p_order = self.model_params.max_order;
        let p_rate = self.model_params.adaptation_rate;
        let p_escape: u8 = if self.model_params.use_escape {
            1
        } else {
            0
        };
        let p_dict: u8 = if self.model_params.use_dictionary {
            1
        } else {
            0
        };
        self.writer.write_u32(p_seed)?;
        self.writer.write_u8(p_order)?;
        self.writer.write_u8(p_rate)?;
        self.writer.write_u8(p_escape)?;
        self.writer.write_u8(p_dict)?;
        proof {
            assert(self.spec_out() =~= old(self).spec_out() + chunked_params_bytes(
                old(self).model_params,
            ));
        }
        Ok(())
    }

    /// Write a one-entry chunk table.
    fn write_chunk_table(&mut self, chunk: &ChunkEntry) -> (r: Result<(), CodecError>)
        ensures
            r is Ok,
            final(self).spec_out() == old(self).spec_out()
                + vstd::bytes::spec_u32_to_le_bytes(1) + vstd::bytes::spec_u32_to_le_bytes(
                chunk.offset,
            ) + vstd::bytes::spec_u32_to_le_bytes(chunk.size)
                + vstd::bytes::spec_u32_to_le_bytes(chunk.checksum)
                + vstd::bytes::spec_u32_to_le_bytes(chunk.chunk_type.code_spec()),
            final(self).model_params == old(self).model_params,
    {
        proof {
            vstd::bytes::lemma_auto_spec_u32_to_from_le_bytes();
        }
        self.writer.write_u32(1)?;
        self.writer.write_u32(chunk.offset)?;
        self.writer.write_u32(chunk.size)?;
        self.writer.write_u32(chunk.checksum)?;
        self.writer.write_u32(chunk.chunk_type.code())?;
        proof {
            assert(self.spec_out() =~= old(self).spec_out()
                + vstd::bytes::spec_u32_to_le_bytes(1) + vstd::bytes::spec_u32_to_le_bytes(
                chunk.offset,
            ) + vstd::bytes::spec_u32_to_le_bytes(chunk.size)
                + vstd::bytes::spec_u32_to_le_bytes(chunk.checksum)
                + vstd::bytes::spec_u32_to_le_bytes(chunk.chunk_type.code_spec()));
        }
        Ok(())
    }
}

/// Range-code the text: four length bytes, then each character by its
/// alphabet interval, with an escape path for characters outside it.
fn encode_text_data(text: &str, alphabet: &Vec<char>) -> (r: Result<Vec<u8>, CodecError>)
    ensures
        match r {
            Ok(out) => out@.len() >= 4,
            Err(e) => e is EntropyCoding,
        },
{
    let mut encoder = RangeEncoder::new();
    let length = text.unicode_len();
    if length > 0xffff_ffff {
        return Err(CodecError::EntropyCoding(String::new()));
    }
    if alphabet.len() > 0x0800_0000 {
        return Err(CodecError::EntropyCoding(String::new()));
    }
    let multipliers: [u64; 4] = [1, 256, 65536, 16777216];
    let mut i: usize = 0;
    while i < 4
        invariant
            i <= 4,
            encoder.wf(),
            length <= 0xffff_ffff,
            multipliers@ =~= seq![1u64, 256u64, 65536u64, 16777216u64],
        decreases 4 - i,
    {
        let byte = ((length as u64 / multipliers[i]) % 256) as u32;
        encoder.encode_symbol(1, byte, 256)?;
        i = i + 1;
    }

    let char_freq: u32 = CHUNKED_CHAR_FREQ;
    let escape_freq: u32 = 1;
    let alen = alphabet.len() as u32;
    let total_freq = alen * char_freq + escape_freq;

    let mut p: usize = 0;
    let n = text.unicode_len();
    while p < n
        invariant
            p <= n,
            n == text@.len(),
            encoder.wf(),
            alen == alphabet@.len(),
            alen <= 0x0800_0000,
            char_freq == CHUNKED_CHAR_FREQ,
            escape_freq == 1,
            total_freq == alen * CHUNKED_CHAR_FREQ + 1,
        decreases n - p,
    {
        let ch = text.get_char(p);
        match position_of(alphabet, ch) {
            Some(symbol_idx) => {
                proof {
                    assert((symbol_idx as int) * (char_freq as int) <= (alen as int) * 10)
                        by (nonlinear_arith)
                        requires
                            0 <= symbol_idx < alen,
                            char_freq == 10,
                    ;
                }
                let cum_freq = (symbol_idx as u32) * char_freq;
                encoder.encode_symbol(char_freq, cum_freq, total_freq)?;
            },
            None => {
                let cum_freq = alen * char_freq;
                encoder.encode_symbol(escape_freq, cum_freq, total_freq)?;
                let char_code = (ch as u32) % 256;
                encoder.encode_symbol(1, char_code, 256)?;
            },
        }
        p = p + 1;
    }
    encoder.finish()?;
    Ok(encoder.into_bytes())
}

/// First position of a character in the alphabet.
fn position_of(alphabet: &Vec<char>, ch: char) -> (r: Option<usize>)
    ensures
        match r {
            Some(i) => i < alphabet@.len() && alphabet@[i as int] == ch,
            None => forall|k: int| 0 <= k < alphabet@.len() ==> alphabet@[k] != ch,
        },
{
    let n = alphabet.len();
    let mut i: usize = 0;
    while i < n
        invariant
            i <= n,
            n == alphabet@.len(),
            forall|k: int| 0 <= k < i ==> alphabet@[k] != ch,
        decreases n - i,
    {
        if alphabet[i] == ch {
            return Some(i);
        }
        i = i + 1;
    }
    None
}

/// Decoder for the chunked text format, reading from an in-memory buffer.
pub struct TcfDecoder {
    reader: BitstreamReader,
}

impl TcfDecoder {
    /// Decoder invariant: the read cursor stays inside the buffer.
    pub closed spec fn wf(self) -> bool {
        self.reader.wf()
    }

    /// The bytes being decoded.
    pub closed spec fn spec_input(self) -> Seq<u8> {
        self.reader.spec_data()
    }

    /// The decoder has not consumed anything yet.
    pub closed spec fn at_start(self) -> bool {
        self.reader.spec_pos() == 0
    }

    /// A fresh decoder over a buffer.
    pub fn new(data: Vec<u8>) -> (r: TcfDecoder)
        ensures
            r.wf(),
            r.at_start(),
            r.spec_input() == data@,
    {
        TcfDecoder { reader: BitstreamReader::new(data) }
    }

    /// Decode the chunked layout back to text: the header and chunk table
    /// are validated, the compressed chunk's CRC-32 must match, and the
    /// characters are range-decoded.
    pub fn decode(&mut self) -> (r: Result<String, CodecError>)
        requires
            old(self).wf(),
            old(self).at_start(),
        ensures
            final(self).wf(),
            final(self).spec_input() == old(self).spec_input(),
            r is Ok ==> old(self).spec_input().len() >= 8 && old(self).spec_input().subrange(
                0,
                4,
            ) == crate::format::tcf_v1_magic() && vstd::bytes::spec_u32_from_le_bytes(
                old(self).spec_input().subrange(4, 8),
            ) == crate::format::TCF_VERSION,
    {
        let header = self.read_header()?;
        header.validate()?;
        let _params = self.read_model_params()?;
        let chunk = self.read_data_chunk_entry()?;
        let data = self.reader.read_bytes(chunk.size as usize)?;
        let calculated = crc32(data.as_slice());
        if calculated != chunk.checksum {
            return Err(CodecError::CorruptedData(String::new()));
        }
        decode_text_data(data)
    }

    /// Read the fixed header.
    fn read_header(&mut self) -> (r: Result<crate::format::TcfHeader, CodecError>)
        requires
            old(self).wf(),
        ensures
            final(self).wf(),
            final(self).spec_input() == old(self).spec_input(),
            r is Ok && old(self).reader.spec_pos() == 0 ==> old(self).spec_input().len() >= 8
                && r->Ok_0.magic@ == old(self).spec_input().subrange(0, 4)
                && r->Ok_0.version == vstd::bytes::spec_u32_from_le_bytes(
                old(self).spec_input().subrange(4, 8),
            ),
    {
        let magic_bytes = match self.reader.read_bytes(4) {
            Ok(b) => b,
            Err(e) => {
                return Err(e);
            },
        };
        proof {
            assert(magic_bytes@.len() == 4);
        }
        let magic: [u8; 4] = [magic_bytes[0], magic_bytes[1], magic_bytes[2], magic_bytes[3]];
        proof {
            assert(magic@ =~= magic_bytes@);
        }
        Ok(
            crate::format::TcfHeader {
                magic,
                version: self.reader.read_u32()?,
                flags: self.reader.read_u32()?,
                model_params_offset: self.reader.read_u32()?,
                chunk_table_offset: self.reader.read_u32()?,
                data_offset: self.reader.read_u32()?,
            },
        )
    }

    /// Read the model parameters.
    fn read_model_params(&mut self) -> (r: Result<ModelParams, CodecError>)
        requires
            old(self).wf(),
        ensures
            final(self).wf(),
            final(self).spec_input() == old(self).spec_input(),
    {
        Ok(
            ModelParams {
                seed: self.reader.read_u32()?,
                max_order: self.reader.read_u8()?,
                adaptation_rate: self.reader.read_u8()?,
                use_escape: self.reader.read_u8()? != 0,
                use_dictionary: self.reader.read_u8()? != 0,
            },
        )
    }

    /// Read the chunk table and find the compressed-data chunk.
    fn read_data_chunk_entry(&mut self) -> (r: Result<ChunkEntry, CodecError>)
        requires
            old(self).wf(),
        ensures
            final(self).wf(),
            final(self).spec_input() == old(self).spec_input(),
    {
        let count = self.reader.read_u32()?;
        if count > 0x0100_0000 {
            return Err(CodecError::InvalidFormat(String::new()));
        }
        let mut found: Option<ChunkEntry> = None;
        let mut i: u32 = 0;
        while i < count
            invariant
                i <= count,
                self.wf(),
                self.spec_input() == old(self).spec_input(),
            decreases count - i,
        {
            let entry = ChunkEntry {
                offset: self.reader.read_u32()?,
                size: self.reader.read_u32()?,
                checksum: self.reader.read_u32()?,
                chunk_type: ChunkType::try_from_code(self.reader.read_u32()?)?,
            };
            let is_data = match entry.chunk_type {
                ChunkType::CompressedData => true,
                _ => false,
            };
            if is_data {
                match found {
                    Some(_) => {},
                    None => {
                        found = Some(entry);
                    },
                }
            }
            i = i + 1;
        }
        match found {
            Some(entry) => Ok(entry),
            None => Err(CodecError::InvalidFormat(String::new())),
        }
    }
}

/// The printable ASCII alphabet the chunked decoder codes against.
fn ascii_alphabet() -> (r: Vec<char>)
    ensures
        r@.len() == 95,
{
    let mut alphabet: Vec<char> = Vec::new();
    let mut b: u8 = 32;
    while b < 127
        invariant
            32 <= b <= 127,
            alphabet@.len() == b as int - 32,
        decreases 127 - b,
    {
        alphabet.push(b as char);
        b = b + 1;
    }
    alphabet
}

/// A uniform frequency table.
fn uniform_freqs(n: usize, value: u32) -> (r: Vec<u32>)
    requires
        n * value <= u32::MAX,
    ensures
        r@.len() == n,
        freq_sum(r@, n as int) == n * value,
        forall|k: int| 0 <= k < n ==> r@[k] == value,
{
    let mut freqs: Vec<u32> = Vec::new();
    let mut i: usize = 0;
    while i < n
        invariant
            i <= n,
            freqs@.len() == i,
            n * value <= u32::MAX,
            forall|k: int| 0 <= k < i ==> freqs@[k] == value,
            freq_sum(freqs@, i as int) == i * value,
        decreases n - i,
    {
        proof {
            crate::range_coder::lemma_freq_sum_push(freqs@, value, i as int);
            assert((i as int + 1) * (value as int) == (i as int) * (value as int) + value)
                by (nonlinear_arith);
            assert((i as int) * (value as int) <= (n as int) * (value as int))
                by (nonlinear_arith)
                requires
                    0 <= i <= n,
                    0 <= value,
            ;
        }
        freqs.push(value);
        i = i + 1;
    }
    freqs
}

/// Relies on String::push: appends exactly the one character.
#[verifier::external_body]
fn push_char(s: &mut String, c: char)
    ensures
        final(s)@ == old(s)@.push(c),
{
    s.push(c);
}

/// Range-decode the text coded by `encode_text_data`, over the printable
/// ASCII alphabet with an escape path for raw bytes.
fn decode_text_data(compressed: Vec<u8>) -> (r: Result<String, CodecError>) {
    let mut decoder = match RangeDecoder::new(compressed) {
        Ok(d) => d,
        Err(e) => {
            return Err(e);
        },
    };
    let mut result = String::new();
    let alphabet = ascii_alphabet();

    let byte_freqs = uniform_freqs(256, 1);
    let multipliers: [u64; 4] = [1, 256, 65536, 16777216];
    let mut length: u64 = 0;
    let mut i: usize = 0;
    while i < 4
        invariant
            i <= 4,
            decoder.wf(),
            byte_freqs@.len() == 256,
            freq_sum(byte_freqs@, 256) == 256,
            length <= (i as int) * 0x1_0000_0000,
            multipliers@ =~= seq![1u64, 256u64, 65536u64, 16777216u64],
        decreases 4 - i,
    {
        let byte_val = decoder.decode_symbol(byte_freqs.as_slice())?;
        let mult = multipliers[i];
        proof {
            assert(mult == 1 || mult == 256 || mult == 65536 || mult == 16777216);
            assert((byte_val as int) * (mult as int) <= 255 * 16777216) by (nonlinear_arith)
                requires
                    0 <= byte_val < 256,
                    mult == 1 || mult == 256 || mult == 65536 || mult == 16777216,
            ;
        }
        length = length + (byte_val as u64) * mult;
        i = i + 1;
    }

    let mut freqs = uniform_freqs(95, CHUNKED_CHAR_FREQ);
    proof {
        crate::range_coder::lemma_freq_sum_push(freqs@, 1, 95);
    }
    freqs.push(1);

    let mut p: u64 = 0;
    while p < length
        invariant
            p <= length,
            decoder.wf(),
            freqs@.len() == 96,
            freq_sum(freqs@, 96) == 951,
            byte_freqs@.len() == 256,
            freq_sum(byte_freqs@, 256) == 256,
            alphabet@.len() == 95,
        decreases length - p,
    {
        let symbol_idx = decoder.decode_symbol(freqs.as_slice())?;
        if symbol_idx < 95 {
            push_char(&mut result, alphabet[symbol_idx]);
        } else {
            let char_code = decoder.decode_symbol(byte_freqs.as_slice())?;
            push_char(&mut result, (char_code as u8) as char);
        }
        p = p + 1;
    }
    Ok(result)
}

} // verus!
