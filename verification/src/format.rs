//! The chunked TCF file structure used by the range-coder text codec: a
//! fixed header, model parameters, a chunk table and the chunk data.

use vstd::prelude::*;
use crate::error::CodecError;

verus! {

/// Version written by this codec.
pub const TCF_VERSION: u32 = 1;

/// Header of a chunked TCF file.
pub struct TcfHeader {
    pub magic: [u8; 4],
    pub version: u32,
    pub flags: u32,
    pub model_params_offset: u32,
    pub chunk_table_offset: u32,
    pub data_offset: u32,
}

/// The four magic bytes `TCF1`.
pub open spec fn tcf_v1_magic() -> Seq<u8> {
    seq![0x54u8, 0x43u8, 0x46u8, 0x31u8]
}

impl TcfHeader {
    /// A fresh header with the current magic and version and zero offsets.
    pub fn new() -> (h: TcfHeader)
        ensures
            h.magic@ == tcf_v1_magic(),
            h.version == TCF_VERSION,
            h.flags == 0,
            h.model_params_offset == 0,
            h.chunk_table_offset == 0,
            h.data_offset == 0,
    {
        let magic: [u8; 4] = [0x54, 0x43, 0x46, 0x31];
        proof {
            assert(magic@ =~= tcf_v1_magic());
        }
        TcfHeader {
            magic,
            version: TCF_VERSION,
            flags: 0,
            model_params_offset: 0,
            chunk_table_offset: 0,
            data_offset: 0,
        }
    }

    /// Accept exactly the current magic and version.
    pub fn validate(&self) -> (r: Result<(), CodecError>)
        ensures
            match r {
                Ok(()) => self.magic@ == tcf_v1_magic() && self.version == TCF_VERSION,
                Err(e) => {
                    &&& (self.magic@ != tcf_v1_magic() || self.version != TCF_VERSION)
                    &&& (e is InvalidFormat <==> self.magic@ != tcf_v1_magic())
                },
            },
    {
        if !(self.magic[0] == 0x54 && self.magic[1] == 0x43 && self.magic[2] == 0x46
            && self.magic[3] == 0x31) {
            proof {
                assert(self.magic@ != tcf_v1_magic());
            }
            return Err(CodecError::InvalidFormat(String::new()));
        }
        proof {
            assert(self.magic@ =~= tcf_v1_magic());
        }
        if self.version != TCF_VERSION {
            return Err(CodecError::UnsupportedVersion(self.version));
        }
        Ok(())
    }
}

/// Model parameters for the contextual text model.
pub struct ModelParams {
    pub seed: u32,
    pub max_order: u8,
    pub adaptation_rate: u8,
    pub use_escape: bool,
    pub use_dictionary: bool,
}

impl Default for ModelParams {
    /// The stock parameters: order 4 with escapes, no dictionary.
    fn default() -> (r: ModelParams)
        ensures
            r.seed == 12345,
            r.max_order == 4,
            r.adaptation_rate == 128,
            r.use_escape,
            !r.use_dictionary,
    {
        ModelParams {
            seed: 12345,
            max_order: 4,
            adaptation_rate: 128,
            use_escape: true,
            use_dictionary: false,
        }
    }
}

/// What a chunk holds.
#[derive(Debug, Clone, Copy, PartialEq, Eq, Structural)]
pub enum ChunkType {
    CompressedData,
    Dictionary,
    Metadata,
}

impl ChunkType {
    /// The numeric code a chunk type is stored as.
    pub fn code(&self) -> (r: u32)
        ensures
            r == match *self {
                ChunkType::CompressedData => 0u32,
                ChunkType::Dictionary => 1u32,
                ChunkType::Metadata => 2u32,
            },
    {
        match self {
            ChunkType::CompressedData => 0,
            ChunkType::Dictionary => 1,
            ChunkType::Metadata => 2,
        }
    }

    /// The chunk type stored under a numeric code; codes above 2 are
    /// rejected.
    pub fn try_from_code(value: u32) -> (r: Result<ChunkType, CodecError>)
        ensures
            match r {
                Ok(t) => value <= 2 && t.code_spec() == value,
                Err(e) => value > 2 && e is InvalidFormat,
            },
    {
        match value {
            0 => Ok(ChunkType::CompressedData),
            1 => Ok(ChunkType::Dictionary),
            2 => Ok(ChunkType::Metadata),
            _ => Err(CodecError::InvalidFormat(String::new())),
        }
    }

    /// The numeric code, at the specification level.
    pub open spec fn code_spec(self) -> u32 {
        match self {
            ChunkType::CompressedData => 0u32,
            ChunkType::Dictionary => 1u32,
            ChunkType::Metadata => 2u32,
        }
    }
}

/// One chunk table entry.
pub struct ChunkEntry {
    pub offset: u32,
    pub size: u32,
    pub checksum: u32,
    pub chunk_type: ChunkType,
}

/// A whole chunked TCF file.
pub struct TcfFile {
    pub header: TcfHeader,
    pub model_params: ModelParams,
    pub chunks: Vec<ChunkEntry>,
    pub data: Vec<u8>,
}

impl TcfFile {
    /// An empty file with a fresh header and stock model parameters.
    pub fn new() -> (r: TcfFile)
        ensures
            r.header.magic@ == tcf_v1_magic(),
            r.header.version == TCF_VERSION,
            r.chunks@.len() == 0,
            r.data@.len() == 0,
    {
        TcfFile {
            header: TcfHeader::new(),
            model_params: Default::default(),
            chunks: Vec::new(),
            data: Vec::new(),
        }
    }
}

} // verus!
