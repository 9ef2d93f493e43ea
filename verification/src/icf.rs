//! ICF image container codec: coefficient coding of quantized 8x8 blocks
//! (differential DC, run-length coded AC), binary framing with explicit
//! per-channel quantization tables, and the decode-side regrouping that
//! restores raster order before undoing the DC prediction.
//!
//! The transform itself (color conversion and the DCT) runs on floating
//! point outside this crate; this module owns everything on the integer
//! side: what the blocks mean, how they are ordered, and how the container
//! bytes are laid out.

use vstd::prelude::*;
use crate::error::CodecError;
use crate::quant::Quantization;
use crate::quant::ZIGZAG_POS;
use crate::quant::clamp_i16;
use crate::quant::pad_to_64;
use crate::quant::rle_decode_raw;
use crate::quant::rle_encode;
use crate::quant::zz_i;
use crate::quant::zz_j;

verus! {

/// ICF header: container metadata, including the quantization tables the
/// decoder must reuse.
pub struct IcfHeader {
    pub magic: String,
    pub version: u16,
    pub width: u32,
    pub height: u32,
    pub channels: u8,
    pub color_space: String,
    pub quality: u8,
    pub compression_method: String,
    pub block_size: u8,
    pub quantization_tables: Vec<[[u32; 8]; 8]>,
    pub original_size: u64,
    pub compressed_size: u64,
    pub checksum: String,
}

/// One compressed 8x8 block: its block coordinates, channel, differentially
/// coded DC coefficient and run-length coded AC coefficients.
pub struct CompressedBlock {
    pub x: u16,
    pub y: u16,
    pub channel: u8,
    pub dc_coefficient: i16,
    pub ac_coefficients: Vec<(u8, i16)>,
}

/// The 16-bit two's-complement wire form of a signed coefficient.
pub open spec fn u16_of_i16(v: i16) -> u16 {
    if v >= 0 {
        v as u16
    } else {
        (v + 0x10000) as u16
    }
}

/// The four magic bytes `ICF2`.
pub open spec fn icf_magic() -> Seq<u8> {
    seq![0x49u8, 0x43u8, 0x46u8, 0x32u8]
}

/// Serialized run-length pairs: one byte of run length, two bytes of value.
pub open spec fn rle_pairs_bytes(ac: Seq<(u8, i16)>) -> Seq<u8>
    decreases ac.len(),
{
    if ac.len() == 0 {
        Seq::empty()
    } else {
        seq![ac[0].0] + vstd::bytes::spec_u16_to_le_bytes(u16_of_i16(ac[0].1)) + rle_pairs_bytes(
            ac.drop_first(),
        )
    }
}

/// The serialized form of one compressed block.
pub open spec fn block_bytes(x: u16, y: u16, channel: u8, dc: i16, ac: Seq<(u8, i16)>) -> Seq<
    u8,
> {
    vstd::bytes::spec_u16_to_le_bytes(x) + vstd::bytes::spec_u16_to_le_bytes(y) + seq![channel]
        + vstd::bytes::spec_u16_to_le_bytes(u16_of_i16(dc)) + vstd::bytes::spec_u16_to_le_bytes(
        ac.len() as u16,
    ) + rle_pairs_bytes(ac)
}

/// The serialized form of a block at a given position of a block list.
pub open spec fn block_bytes_of(blocks: Seq<CompressedBlock>, k: int) -> Seq<u8> {
    block_bytes(
        blocks[k].x,
        blocks[k].y,
        blocks[k].channel,
        blocks[k].dc_coefficient,
        blocks[k].ac_coefficients@,
    )
}

/// The serialized form of the first `k` blocks of a list.
pub open spec fn blocks_bytes_upto(blocks: Seq<CompressedBlock>, k: int) -> Seq<u8>
    decreases k,
{
    if k <= 0 {
        Seq::empty()
    } else {
        blocks_bytes_upto(blocks, k - 1) + block_bytes_of(blocks, k - 1)
    }
}

/// The serialized block list: a count, then each block in order.
pub open spec fn blocks_bytes(blocks: Seq<CompressedBlock>) -> Seq<u8> {
    vstd::bytes::spec_u32_to_le_bytes(blocks.len() as u32) + blocks_bytes_upto(
        blocks,
        blocks.len() as int,
    )
}

/// Every block of a list fits the serialized field widths.
pub open spec fn blocks_serializable(blocks: Seq<CompressedBlock>) -> bool {
    &&& blocks.len() <= 0xffff_ffff
    &&& forall|k: int|
        0 <= k < blocks.len() ==> (#[trigger] blocks[k].ac_coefficients)@.len() <= 0xffff
}

/// The serialized form of a block list from position `k` on.
pub open spec fn blocks_bytes_from(blocks: Seq<CompressedBlock>, k: int) -> Seq<u8>
    decreases blocks.len() - k,
{
    if k < 0 || k >= blocks.len() {
        Seq::empty()
    } else {
        block_bytes_of(blocks, k) + blocks_bytes_from(blocks, k + 1)
    }
}

/// Serialized run-length pairs take three bytes each.
proof fn lemma_rle_pairs_bytes_len(ac: Seq<(u8, i16)>)
    ensures
        rle_pairs_bytes(ac).len() == 3 * ac.len(),
    decreases ac.len(),
{
    vstd::bytes::lemma_auto_spec_u16_to_from_le_bytes();
    if ac.len() > 0 {
        lemma_rle_pairs_bytes_len(ac.drop_first());
    }
}

/// A serialized block takes nine bytes of fields plus three per pair.
proof fn lemma_block_bytes_len(blocks: Seq<CompressedBlock>, k: int)
    requires
        0 <= k < blocks.len(),
    ensures
        block_bytes_of(blocks, k).len() == 9 + 3 * blocks[k].ac_coefficients@.len(),
{
    vstd::bytes::lemma_auto_spec_u16_to_from_le_bytes();
    lemma_rle_pairs_bytes_len(blocks[k].ac_coefficients@);
}

/// A prefix serialization and the matching suffix serialization cover the
/// whole list.
proof fn lemma_blocks_bytes_split(blocks: Seq<CompressedBlock>, k: int)
    requires
        0 <= k <= blocks.len(),
    ensures
        blocks_bytes_upto(blocks, blocks.len() as int) == blocks_bytes_upto(blocks, k)
            + blocks_bytes_from(blocks, k),
    decreases blocks.len() - k,
{
    if k == blocks.len() {
        assert(blocks_bytes_upto(blocks, k) + blocks_bytes_from(blocks, k)
            =~= blocks_bytes_upto(blocks, k));
    } else {
        lemma_blocks_bytes_split(blocks, k + 1);
        assert(blocks_bytes_upto(blocks, k + 1) == blocks_bytes_upto(blocks, k)
            + block_bytes_of(blocks, k));
        assert(blocks_bytes_upto(blocks, k) + block_bytes_of(blocks, k) + blocks_bytes_from(
            blocks,
            k + 1,
        ) =~= blocks_bytes_upto(blocks, k) + blocks_bytes_from(blocks, k));
    }
}

impl Quantization {
    /// Coefficient-code one channel's quantized blocks, in raster order: the
    /// DC coefficient of each block is stored as the difference from the
    /// previous block's, and the remaining 63 zigzag coefficients are
    /// run-length coded.
    pub fn compress_channel_blocks(
        quantized: &Vec<[[i16; 8]; 8]>,
        blocks_x: usize,
        blocks_y: usize,
        channel: u8,
    ) -> (r: Vec<CompressedBlock>)
        requires
            quantized@.len() == blocks_x * blocks_y,
            blocks_x <= 0xffff,
            blocks_y <= 0xffff,
            forall|k: int|
                0 <= k < quantized@.len() ==> -16384 <= (#[trigger] quantized@[k])@[0]@[0]
                    <= 16383,
        ensures
            r@.len() == quantized@.len(),
            forall|k: int|
                0 <= k < r@.len() ==> {
                    let block = quantized@[k];
                    &&& (#[trigger] r@[k]).channel == channel
                    &&& r@[k].x as int == k % (blocks_x as int)
                    &&& r@[k].y as int == k / (blocks_x as int)
                    &&& r@[k].dc_coefficient as int == block@[0]@[0] - (if k == 0 {
                        0int
                    } else {
                        quantized@[k - 1]@[0]@[0] as int
                    })
                    &&& r@[k].ac_coefficients@ == rle_encode(
                        Seq::new(63, |m: int| block@[zz_i(m + 1)]@[zz_j(m + 1)]),
                    )
                },
            blocks_serializable(r@),
    {
        let mut out: Vec<CompressedBlock> = Vec::new();
        let mut prev_dc: i16 = 0;
        let n = quantized.len();
        let mut k: usize = 0;
        if blocks_x == 0 {
            proof {
                assert(quantized@.len() == 0);
            }
            return out;
        }
        proof {
            assert(n <= 0xffff * 0xffff) by (nonlinear_arith)
                requires
                    n == blocks_x * blocks_y,
                    blocks_x <= 0xffff,
                    blocks_y <= 0xffff,
            ;
        }
        while k < n
            invariant
                k <= n,
                n == quantized@.len(),
                n <= 0xffff * 0xffff,
                n == blocks_x * blocks_y,
                0 < blocks_x <= 0xffff,
                blocks_y <= 0xffff,
                out@.len() == k,
                prev_dc as int == if k == 0 {
                    0int
                } else {
                    quantized@[k as int - 1]@[0]@[0] as int
                },
                forall|m: int|
                    0 <= m < n ==> -16384 <= (#[trigger] quantized@[m])@[0]@[0] <= 16383,
                forall|m: int|
                    0 <= m < k ==> {
                        let block = quantized@[m];
                        &&& (#[trigger] out@[m]).channel == channel
                        &&& out@[m].x as int == m % (blocks_x as int)
                        &&& out@[m].y as int == m / (blocks_x as int)
                        &&& out@[m].dc_coefficient as int == block@[0]@[0] - (if m == 0 {
                            0int
                        } else {
                            quantized@[m - 1]@[0]@[0] as int
                        })
                        &&& out@[m].ac_coefficients@ == rle_encode(
                            Seq::new(63, |j: int| block@[zz_i(j + 1)]@[zz_j(j + 1)]),
                        )
                    },
                forall|m: int|
                    0 <= m < k ==> (#[trigger] out@[m].ac_coefficients)@.len() <= 0xffff,
            decreases n - k,
        {
            let block = &quantized[k];
            let zigzag = Quantization::block_to_zigzag(block);
            let dc = zigzag[0];
            let ac_slice = vstd::slice::slice_subrange(zigzag.as_slice(), 1, 64);
            let ac = Quantization::run_length_encode(ac_slice);
            proof {
                assert(ac_slice@ =~= Seq::new(
                    63,
                    |j: int| quantized@[k as int]@[zz_i(j + 1)]@[zz_j(j + 1)],
                ));
                crate::quant::lemma_rle_len_bound(ac_slice@);
                assert(zz_i(0) == 0 && zz_j(0) == 0);
                vstd::arithmetic::div_mod::lemma_fundamental_div_mod(k as int, blocks_x as int);
                lemma_raster_index_bounds(k as int, blocks_x as int, blocks_y as int);
            }
            let x = (k % blocks_x) as u16;
            let y = (k / blocks_x) as u16;
            let dc_diff = dc_sub(dc, prev_dc);
            out.push(
                CompressedBlock { x, y, channel, dc_coefficient: dc_diff, ac_coefficients: ac },
            );
            prev_dc = dc;
            k = k + 1;
        }
        out
    }
}

/// Subtract DC coefficients, saturating at the 16-bit bounds.
fn dc_sub(a: i16, b: i16) -> (r: i16)
    ensures
        r as int == clamp_i16(a - b),
        -32768 <= a - b <= 32767 ==> r as int == a - b,
{
    let wide = a as i32 - b as i32;
    if wide < -32768 {
        -32768i16
    } else if wide > 32767 {
        32767i16
    } else {
        wide as i16
    }
}

/// Add DC coefficients, saturating at the 16-bit bounds.
fn dc_add(a: i16, b: i16) -> (r: i16)
    ensures
        r as int == clamp_i16(a + b),
        -32768 <= a + b <= 32767 ==> r as int == a + b,
{
    let wide = a as i32 + b as i32;
    if wide < -32768 {
        -32768i16
    } else if wide > 32767 {
        32767i16
    } else {
        wide as i16
    }
}

/// A raster index within a full grid stays inside the grid.
proof fn lemma_raster_index_bounds(k: int, bx: int, by: int)
    requires
        0 < bx,
        0 <= by,
        0 <= k < bx * by,
    ensures
        0 <= k % bx < bx,
        0 <= k / bx < by,
{
    vstd::arithmetic::div_mod::lemma_mod_bound(k, bx);
    vstd::arithmetic::div_mod::lemma_div_pos_is_pos(k, bx);
    if k / bx >= by {
        vstd::arithmetic::div_mod::lemma_fundamental_div_mod(k, bx);
        assert(k >= bx * by) by (nonlinear_arith)
            requires
                k == bx * (k / bx) + k % bx,
                k / bx >= by,
                k % bx >= 0,
                bx > 0,
                by >= 0,
        ;
    }
}

/// Serialize a block list for the container.
pub fn serialize_blocks(blocks: &Vec<CompressedBlock>) -> (r: Vec<u8>)
    requires
        blocks_serializable(blocks@),
    ensures
        r@ == blocks_bytes(blocks@),
{
    let mut out: Vec<u8> = Vec::new();
    let mut cbytes = vstd::bytes::u32_to_le_bytes(blocks.len() as u32);
    out.append(&mut cbytes);
    let n = blocks.len();
    let mut k: usize = 0;
    while k < n
        invariant
            k <= n,
            n == blocks@.len(),
            blocks_serializable(blocks@),
            out@ == vstd::bytes::spec_u32_to_le_bytes(blocks@.len() as u32) + blocks_bytes_upto(
                blocks@,
                k as int,
            ),
        decreases n - k,
    {
        let b = &blocks[k];
        let mut xb = vstd::bytes::u16_to_le_bytes(b.x);
        out.append(&mut xb);
        let mut yb = vstd::bytes::u16_to_le_bytes(b.y);
        out.append(&mut yb);
        out.push(b.channel);
        let dc_val: i16 = b.dc_coefficient;
        let dc_wire: u16 = if dc_val >= 0 {
            dc_val as u16
        } else {
            (dc_val as i32 + 0x10000) as u16
        };
        proof {
            assert(dc_wire == u16_of_i16(blocks@[k as int].dc_coefficient));
        }
        let mut dcb = vstd::bytes::u16_to_le_bytes(dc_wire);
        out.append(&mut dcb);
        let mut acl = vstd::bytes::u16_to_le_bytes(b.ac_coefficients.len() as u16);
        out.append(&mut acl);
        let m = b.ac_coefficients.len();
        let mut j: usize = 0;
        while j < m
            invariant
                j <= m,
                m == b.ac_coefficients@.len(),
                b == blocks@[k as int],
                k < blocks@.len(),
                out@ == vstd::bytes::spec_u32_to_le_bytes(blocks@.len() as u32)
                    + blocks_bytes_upto(blocks@, k as int) + vstd::bytes::spec_u16_to_le_bytes(
                    blocks@[k as int].x,
                ) + vstd::bytes::spec_u16_to_le_bytes(blocks@[k as int].y) + seq![
                    blocks@[k as int].channel,
                ] + vstd::bytes::spec_u16_to_le_bytes(u16_of_i16(blocks@[k as int].dc_coefficient))
                    + vstd::bytes::spec_u16_to_le_bytes(
                    blocks@[k as int].ac_coefficients@.len() as u16,
                ) + rle_pairs_bytes(blocks@[k as int].ac_coefficients@.take(j as int)),
            decreases m - j,
        {
            let (run, value) = b.ac_coefficients[j];
            out.push(run);
            let v_wire: u16 = if value >= 0 {
                value as u16
            } else {
                (value as i32 + 0x10000) as u16
            };
            proof {
                assert(v_wire == u16_of_i16(value));
            }
            let mut vb = vstd::bytes::u16_to_le_bytes(v_wire);
            out.append(&mut vb);
            proof {
                lemma_rle_pairs_bytes_take_step(blocks@[k as int].ac_coefficients@, j as int);
            }
            j = j + 1;
        }
        proof {
            assert(b.ac_coefficients@.take(m as int) =~= b.ac_coefficients@);
            assert(out@ =~= vstd::bytes::spec_u32_to_le_bytes(blocks@.len() as u32)
                + blocks_bytes_upto(blocks@, k as int + 1));
        }
        k = k + 1;
    }
    proof {
        assert(out@ =~= blocks_bytes(blocks@));
    }
    out
}

/// Serializing one more run-length pair appends its three bytes.
proof fn lemma_rle_pairs_bytes_take_step(ac: Seq<(u8, i16)>, j: int)
    requires
        0 <= j < ac.len(),
    ensures
        rle_pairs_bytes(ac.take(j + 1)) == rle_pairs_bytes(ac.take(j)) + seq![ac[j].0]
            + vstd::bytes::spec_u16_to_le_bytes(u16_of_i16(ac[j].1)),
    decreases j,
{
    assert(rle_pairs_bytes(Seq::<(u8, i16)>::empty()) =~= Seq::<u8>::empty());
    if j == 0 {
        assert(ac.take(1)[0] == ac[0]);
        assert(ac.take(1).drop_first() =~= Seq::<(u8, i16)>::empty());
        assert(rle_pairs_bytes(ac.take(1).drop_first()) == Seq::<u8>::empty());
        assert(ac.take(0) =~= Seq::<(u8, i16)>::empty());
        assert(rle_pairs_bytes(ac.take(1)) =~= rle_pairs_bytes(ac.take(0)) + seq![ac[0].0]
            + vstd::bytes::spec_u16_to_le_bytes(u16_of_i16(ac[0].1)));
    } else {
        lemma_rle_pairs_bytes_take_step(ac.drop_first(), j - 1);
        assert(ac.take(j + 1).drop_first() =~= ac.drop_first().take(j));
        assert(ac.take(j).drop_first() =~= ac.drop_first().take(j - 1));
        assert(ac.take(j + 1)[0] == ac[0]);
        assert(ac.take(j)[0] == ac[0]);
        assert(ac.drop_first()[j - 1] == ac[j]);
        assert(rle_pairs_bytes(ac.take(j + 1)) =~= rle_pairs_bytes(ac.take(j)) + seq![ac[j].0]
            + vstd::bytes::spec_u16_to_le_bytes(u16_of_i16(ac[j].1)));
    }
}

/// Parse a serialized block list.  Succeeds exactly when the bytes are a
/// complete, exactly consumed block list; the parsed blocks re-serialize to
/// the same bytes.
pub fn deserialize_blocks(data: &[u8]) -> (r: Result<Vec<CompressedBlock>, CodecError>)
    ensures
        match r {
            Ok(blocks) => blocks_serializable(blocks@) && blocks_bytes(blocks@) == data@,
            Err(e) => e is InvalidFormat,
        },
        (exists|bs: Seq<CompressedBlock>|
            blocks_serializable(bs) && #[trigger] blocks_bytes(bs) == data@) ==> r is Ok,
{
    let ghost hw = exists|bs: Seq<CompressedBlock>|
        blocks_serializable(bs) && #[trigger] blocks_bytes(bs) == data@;
    let ghost bs: Seq<CompressedBlock> = if hw {
        choose|bs: Seq<CompressedBlock>|
            blocks_serializable(bs) && #[trigger] blocks_bytes(bs) == data@
    } else {
        Seq::empty()
    };
    proof {
        if hw {
            vstd::bytes::lemma_auto_spec_u32_to_from_le_bytes();
        }
    }
    if data.len() < 4 {
        proof {
            assert(!hw);
        }
        return Err(CodecError::InvalidFormat(String::new()));
    }
    let count = vstd::bytes::u32_from_le_bytes(vstd::slice::slice_subrange(data, 0, 4));
    let mut blocks: Vec<CompressedBlock> = Vec::new();
    let mut pos: usize = 4;
    let mut k: u32 = 0;
    proof {
        vstd::bytes::lemma_auto_spec_u32_to_from_le_bytes();
        assert(blocks_bytes_upto(blocks@, 0) =~= Seq::<u8>::empty());
        assert(vstd::bytes::spec_u32_to_le_bytes(count) + blocks_bytes_upto(blocks@, 0)
            =~= data@.take(4));
        if hw {
            assert(data@.subrange(0, 4) =~= vstd::bytes::spec_u32_to_le_bytes(
                bs.len() as u32,
            ));
            assert(count == bs.len());
            lemma_blocks_bytes_split(bs, 0);
            assert(blocks_bytes_upto(bs, 0) =~= Seq::<u8>::empty());
            assert(data@.skip(4) =~= blocks_bytes_from(bs, 0));
        }
    }
    while k < count
        invariant
            k <= count,
            blocks@.len() == k,
            pos <= data@.len(),
            blocks_serializable(blocks@),
            vstd::bytes::spec_u32_to_le_bytes(count) + blocks_bytes_upto(blocks@, k as int)
                == data@.take(pos as int),
            hw == exists|w: Seq<CompressedBlock>|
                blocks_serializable(w) && #[trigger] blocks_bytes(w) == data@,
            hw ==> blocks_serializable(bs) && count == bs.len() && data@.skip(pos as int)
                == blocks_bytes_from(bs, k as int),
        decreases count - k,
    {
        proof {
            if hw {
                lemma_block_bytes_len(bs, k as int);
                assert(blocks_bytes_from(bs, k as int) == block_bytes_of(bs, k as int)
                    + blocks_bytes_from(bs, k as int + 1));
                assert(data@.len() - pos >= 9 + 3 * bs[k as int].ac_coefficients@.len());
            }
        }
        if data.len() - pos < 9 {
            proof {
                assert(!hw);
            }
            return Err(CodecError::InvalidFormat(String::new()));
        }
        let x = vstd::bytes::u16_from_le_bytes(vstd::slice::slice_subrange(data, pos, pos + 2));
        let y = vstd::bytes::u16_from_le_bytes(
            vstd::slice::slice_subrange(data, pos + 2, pos + 4),
        );
        let channel = data[pos + 4];
        let dc_raw = vstd::bytes::u16_from_le_bytes(
            vstd::slice::slice_subrange(data, pos + 5, pos + 7),
        );
        let dc: i16 = if dc_raw >= 0x8000 {
            (dc_raw as i32 - 0x10000) as i16
        } else {
            dc_raw as i16
        };
        let ac_len = vstd::bytes::u16_from_le_bytes(
            vstd::slice::slice_subrange(data, pos + 7, pos + 9),
        ) as usize;
        let header_end = pos + 9;
        proof {
            if hw {
                vstd::bytes::lemma_auto_spec_u16_to_from_le_bytes();
                lemma_block_bytes_len(bs, k as int);
                let blk = block_bytes_of(bs, k as int);
                assert(data@.skip(pos as int) == blocks_bytes_from(bs, k as int));
                assert(blocks_bytes_from(bs, k as int) == blk + blocks_bytes_from(
                    bs,
                    k as int + 1,
                ));
                assert forall|i: int| 0 <= i < blk.len() implies data@[pos as int + i]
                    == #[trigger] blk[i] by {
                    assert(data@.skip(pos as int)[i] == data@[pos as int + i]);
                    assert((blk + blocks_bytes_from(bs, k as int + 1))[i] == blk[i]);
                }
                assert(blk.subrange(7, 9) =~= vstd::bytes::spec_u16_to_le_bytes(
                    bs[k as int].ac_coefficients@.len() as u16,
                ));
                assert(data@.subrange(pos as int + 7, pos as int + 9) =~= blk.subrange(7, 9));
                assert(ac_len == bs[k as int].ac_coefficients@.len());
                assert(data@.len() - header_end as int >= 3 * ac_len);
                vstd::arithmetic::div_mod::lemma_div_is_ordered(
                    3 * ac_len as int,
                    data@.len() - header_end as int,
                    3,
                );
                vstd::arithmetic::div_mod::lemma_div_multiples_vanish(ac_len as int, 3);
            }
        }
        if (data.len() - header_end) / 3 < ac_len {
            proof {
                assert(!hw);
            }
            return Err(CodecError::InvalidFormat(String::new()));
        }
        let mut ac: Vec<(u8, i16)> = Vec::new();
        let mut j: usize = 0;
        let mut p = header_end;
        while j < ac_len
            invariant
                j <= ac_len,
                ac@.len() == j,
                p == header_end + 3 * j,
                header_end + 3 * ac_len <= data@.len(),
                rle_pairs_bytes(ac@) == data@.subrange(header_end as int, p as int),
            decreases ac_len - j,
        {
            let run = data[p];
            let vraw = vstd::bytes::u16_from_le_bytes(
                vstd::slice::slice_subrange(data, p + 1, p + 3),
            );
            let value: i16 = if vraw >= 0x8000 {
                (vraw as i32 - 0x10000) as i16
            } else {
                vraw as i16
            };
            let ghost pre = ac@;
            ac.push((run, value));
            proof {
                vstd::bytes::lemma_auto_spec_u16_to_from_le_bytes();
                lemma_rle_pairs_bytes_take_step(ac@, j as int);
                assert(ac@.take(j as int) =~= pre);
                assert(ac@.take(j as int + 1) =~= ac@);
                assert(u16_of_i16(value) == vraw);
                assert(rle_pairs_bytes(ac@) =~= data@.subrange(
                    header_end as int,
                    p as int + 3,
                ));
            }
            p = p + 3;
            j = j + 1;
        }
        let ghost pre_blocks = blocks@;
        blocks.push(CompressedBlock { x, y, channel, dc_coefficient: dc, ac_coefficients: ac });
        proof {
            vstd::bytes::lemma_auto_spec_u16_to_from_le_bytes();
            lemma_blocks_bytes_upto_push(pre_blocks, blocks@[k as int]);
            assert(pre_blocks.push(blocks@[k as int]) =~= blocks@);
            assert(u16_of_i16(dc) == dc_raw);
            assert(vstd::bytes::spec_u16_to_le_bytes(x) =~= data@.subrange(
                pos as int,
                pos as int + 2,
            ));
            assert(vstd::bytes::spec_u16_to_le_bytes(y) =~= data@.subrange(
                pos as int + 2,
                pos as int + 4,
            ));
            assert(seq![channel] =~= data@.subrange(pos as int + 4, pos as int + 5));
            assert(vstd::bytes::spec_u16_to_le_bytes(u16_of_i16(dc)) =~= data@.subrange(
                pos as int + 5,
                pos as int + 7,
            ));
            assert(ac@.len() == ac_len && ac_len <= 0xffff);
            assert((ac@.len() as u16) == (ac_len as u16));
            assert(vstd::bytes::spec_u16_to_le_bytes(ac@.len() as u16) =~= data@.subrange(
                pos as int + 7,
                pos as int + 9,
            ));
            assert(rle_pairs_bytes(ac@) == data@.subrange(header_end as int, p as int));
            assert(block_bytes_of(blocks@, k as int) =~= data@.subrange(pos as int, p as int));
            assert(blocks_bytes_upto(blocks@, k as int + 1) == blocks_bytes_upto(
                pre_blocks,
                k as int,
            ) + block_bytes_of(blocks@, k as int));
            assert(data@.take(pos as int) + data@.subrange(pos as int, p as int) =~= data@.take(
                p as int,
            ));
            assert(vstd::bytes::spec_u32_to_le_bytes(count) + blocks_bytes_upto(
                blocks@,
                k as int + 1,
            ) =~= data@.take(p as int));
        }
        proof {
            if hw {
                lemma_block_bytes_len(bs, k as int);
                let blk = block_bytes_of(bs, k as int);
                assert(p as int == pos as int + blk.len());
                assert(blocks_bytes_from(bs, k as int) == blk + blocks_bytes_from(
                    bs,
                    k as int + 1,
                ));
                assert forall|i: int|
                    0 <= i < blocks_bytes_from(bs, k as int + 1).len() implies data@[p as int
                    + i] == #[trigger] blocks_bytes_from(bs, k as int + 1)[i] by {
                    assert(data@.skip(pos as int)[blk.len() + i] == data@[pos as int
                        + blk.len() + i]);
                    assert((blk + blocks_bytes_from(bs, k as int + 1))[blk.len() + i]
                        == blocks_bytes_from(bs, k as int + 1)[i]);
                }
                assert(data@.skip(p as int) =~= blocks_bytes_from(bs, k as int + 1));
            }
        }
        pos = p;
        k = k + 1;
    }
    proof {
        if hw {
            assert(blocks_bytes_from(bs, count as int).len() == 0);
            assert(data@.skip(pos as int).len() == 0);
        }
    }
    if pos != data.len() {
        proof {
            assert(!hw);
        }
        return Err(CodecError::InvalidFormat(String::new()));
    }
    proof {
        assert(data@.take(pos as int) =~= data@);
        vstd::bytes::lemma_auto_spec_u32_to_from_le_bytes();
        assert(data@.subrange(0, 4) =~= vstd::bytes::spec_u32_to_le_bytes(count).subrange(0, 4));
        assert(blocks_bytes(blocks@) =~= data@);
    }
    Ok(blocks)
}

/// Appending a block appends its serialization.
proof fn lemma_blocks_bytes_upto_push(blocks: Seq<CompressedBlock>, b: CompressedBlock)
    ensures
        blocks_bytes_upto(blocks.push(b), blocks.len() as int + 1) == blocks_bytes_upto(
            blocks,
            blocks.len() as int,
        ) + block_bytes(b.x, b.y, b.channel, b.dc_coefficient, b.ac_coefficients@),
{
    let n = blocks.len() as int;
    lemma_blocks_bytes_agree(blocks.push(b), blocks, n);
    assert(blocks.push(b)[n] == b);
}

/// Two block lists that agree on a prefix serialize that prefix alike.
proof fn lemma_blocks_bytes_agree(s1: Seq<CompressedBlock>, s2: Seq<CompressedBlock>, k: int)
    requires
        0 <= k <= s1.len(),
        k <= s2.len(),
        forall|i: int| 0 <= i < k ==> s1[i] == s2[i],
    ensures
        blocks_bytes_upto(s1, k) == blocks_bytes_upto(s2, k),
    decreases k,
{
    if k > 0 {
        lemma_blocks_bytes_agree(s1, s2, k - 1);
    }
}


/// One quantization table cell in row-major order.
pub open spec fn table_cell(t: Seq<[u32; 8]>, k: int) -> u32 {
    t[k / 8]@[k % 8]
}

/// The first `k` cells of a serialized quantization table.
pub open spec fn table_bytes_upto(t: Seq<[u32; 8]>, k: int) -> Seq<u8>
    decreases k,
{
    if k <= 0 {
        Seq::empty()
    } else {
        table_bytes_upto(t, k - 1) + vstd::bytes::spec_u32_to_le_bytes(table_cell(t, k - 1))
    }
}

/// A serialized quantization table: 64 cells, 4 bytes each.
pub open spec fn table_bytes(t: Seq<[u32; 8]>) -> Seq<u8> {
    table_bytes_upto(t, 64)
}

/// The full container for given header fields, serialized tables and block
/// payload.
pub open spec fn icf_container_spec(
    version: u16,
    width: u32,
    height: u32,
    channels: u8,
    quality: u8,
    block_size: u8,
    tables: Seq<u8>,
    original_size: u64,
    compressed_size: u64,
    checksum: Seq<u8>,
    payload: Seq<u8>,
) -> Seq<u8> {
    icf_magic() + vstd::bytes::spec_u32_to_le_bytes(861) + vstd::bytes::spec_u16_to_le_bytes(
        version,
    ) + vstd::bytes::spec_u32_to_le_bytes(width) + vstd::bytes::spec_u32_to_le_bytes(height)
        + seq![channels] + seq![quality] + seq![block_size] + tables
        + vstd::bytes::spec_u64_to_le_bytes(original_size) + vstd::bytes::spec_u64_to_le_bytes(
        compressed_size,
    ) + checksum + payload
}

/// Structural validity of a container prefix: magic, the fixed header
/// length, and enough bytes for the header.
pub open spec fn icf_frame_ok(data: Seq<u8>) -> bool {
    &&& data.len() >= 8
    &&& data.subrange(0, 4) == icf_magic()
    &&& vstd::bytes::spec_u32_from_le_bytes(data.subrange(4, 8)) == 861
    &&& data.len() >= 869
}

/// The scalar header fields of a structurally valid container: version,
/// width, height, channels, quality, block size, original size, compressed
/// size, digest bytes.
pub open spec fn icf_fields(data: Seq<u8>) -> (u16, u32, u32, u8, u8, u8, u64, u64, Seq<u8>)
    recommends
        icf_frame_ok(data),
{
    (
        vstd::bytes::spec_u16_from_le_bytes(data.subrange(8, 10)),
        vstd::bytes::spec_u32_from_le_bytes(data.subrange(10, 14)),
        vstd::bytes::spec_u32_from_le_bytes(data.subrange(14, 18)),
        data[18],
        data[19],
        data[20],
        vstd::bytes::spec_u64_from_le_bytes(data.subrange(789, 797)),
        vstd::bytes::spec_u64_from_le_bytes(data.subrange(797, 805)),
        data.subrange(805, 869),
    )
}

/// Serialize one quantization table.
fn serialize_table(t: &[[u32; 8]; 8], out: &mut Vec<u8>)
    ensures
        final(out)@ == old(out)@ + table_bytes(t@),
{
    let mut k: usize = 0;
    proof {
        assert(out@ =~= old(out)@ + table_bytes_upto(t@, 0));
    }
    while k < 64
        invariant
            k <= 64,
            out@ == old(out)@ + table_bytes_upto(t@, k as int),
        decreases 64 - k,
    {
        let cell = t[k / 8][k % 8];
        let mut cb = vstd::bytes::u32_to_le_bytes(cell);
        out.append(&mut cb);
        proof {
            assert(out@ =~= old(out)@ + table_bytes_upto(t@, k as int + 1));
        }
        k = k + 1;
    }
}

/// Parse one quantization table from 256 bytes.
fn parse_table(data: &[u8], base: usize) -> (t: [[u32; 8]; 8])
    requires
        base + 256 <= data@.len(),
    ensures
        forall|i: int, j: int|
            0 <= i < 8 && 0 <= j < 8 ==> t@[i]@[j] == vstd::bytes::spec_u32_from_le_bytes(
                data@.subrange(base + 4 * (8 * i + j), base + 4 * (8 * i + j) + 4),
            ),
{
    let n = data.len();
    let mut t: [[u32; 8]; 8] = [[0u32; 8]; 8];
    let mut i: usize = 0;
    while i < 8
        invariant
            i <= 8,
            n == data@.len(),
            base + 256 <= data@.len(),
            forall|a: int, b: int|
                0 <= a < i && 0 <= b < 8 ==> t@[a]@[b] == vstd::bytes::spec_u32_from_le_bytes(
                    data@.subrange(base + 4 * (8 * a + b), base + 4 * (8 * a + b) + 4),
                ),
        decreases 8 - i,
    {
        let mut j: usize = 0;
        while j < 8
            invariant
                i < 8,
                j <= 8,
                n == data@.len(),
                base + 256 <= data@.len(),
                forall|a: int, b: int|
                    0 <= a < i && 0 <= b < 8 ==> t@[a]@[b] == vstd::bytes::spec_u32_from_le_bytes(
                        data@.subrange(base + 4 * (8 * a + b), base + 4 * (8 * a + b) + 4),
                    ),
                forall|b: int|
                    0 <= b < j ==> t@[i as int]@[b] == vstd::bytes::spec_u32_from_le_bytes(
                        data@.subrange(
                            base + 4 * (8 * (i as int) + b),
                            base + 4 * (8 * (i as int) + b) + 4,
                        ),
                    ),
            decreases 8 - j,
        {
            let off = base + 4 * (8 * i + j);
            let cell = vstd::bytes::u32_from_le_bytes(
                vstd::slice::slice_subrange(data, off, off + 4),
            );
            t[i][j] = cell;
            j = j + 1;
        }
        i = i + 1;
    }
    t
}

/// The block delivered for channel `c` at grid cell `(x, y)`: the last one
/// in the list carrying those coordinates.
pub open spec fn block_at(blocks: Seq<CompressedBlock>, c: int, x: int, y: int) -> Option<
    CompressedBlock,
>
    decreases blocks.len(),
{
    if blocks.len() == 0 {
        None
    } else {
        let b = blocks.last();
        if b.channel as int == c && b.x as int == x && b.y as int == y {
            Some(b)
        } else {
            block_at(blocks.drop_last(), c, x, y)
        }
    }
}

/// The still-differential quantized coefficient at cell `(i, j)` of the
/// block delivered for channel `c` at `(x, y)`: the stored DC at the zigzag
/// origin, the run-length-expanded AC value elsewhere, zero where no block
/// was delivered.
pub open spec fn placed_coeff(
    blocks: Seq<CompressedBlock>,
    c: int,
    x: int,
    y: int,
    i: int,
    j: int,
) -> i16
    recommends
        0 <= i < 8,
        0 <= j < 8,
{
    match block_at(blocks, c, x, y) {
        None => 0i16,
        Some(b) => {
            let k = ZIGZAG_POS@[i]@[j] as int;
            if k == 0 {
                b.dc_coefficient
            } else {
                pad_to_64(rle_decode_raw(b.ac_coefficients@))[k - 1]
            }
        },
    }
}

/// The DC coefficient of grid cell `g` (raster order) after the
/// differential prediction is undone, saturating at the 16-bit bounds.
pub open spec fn restored_dc(blocks: Seq<CompressedBlock>, c: int, bx: int, g: int) -> int
    recommends
        1 <= bx,
    decreases g + 1,
{
    if g < 0 {
        0
    } else {
        clamp_i16(
            restored_dc(blocks, c, bx, g - 1) + placed_coeff(blocks, c, g % bx, g / bx, 0, 0),
        )
    }
}

/// Image codec over the ICF container format.  The floating-point transform
/// stages live with the caller; this codec owns the integer coefficient
/// coding and the container bytes.
pub struct IcfCodec;

impl IcfCodec {
    /// A fresh codec.
    pub fn new() -> (r: IcfCodec) {
        IcfCodec
    }

    /// Frame a header and a serialized block payload into a container.
    pub fn create_container(&self, header: IcfHeader, compressed_data: Vec<u8>) -> (r: Result<
        Vec<u8>,
        CodecError,
    >)
        requires
            header.quantization_tables@.len() == 3,
            vstd::utf8::encode_utf8(header.checksum@).len() == 64,
        ensures
            match r {
                Ok(out) => out@ == icf_container_spec(
                    header.version,
                    header.width,
                    header.height,
                    header.channels,
                    header.quality,
                    header.block_size,
                    table_bytes(header.quantization_tables@[0]@) + table_bytes(
                        header.quantization_tables@[1]@,
                    ) + table_bytes(header.quantization_tables@[2]@),
                    header.original_size,
                    compressed_data@.len() as u64,
                    vstd::utf8::encode_utf8(header.checksum@),
                    compressed_data@,
                ),
                Err(e) => false,
            },
    {
        let mut out: Vec<u8> = Vec::new();
        out.push(0x49);
        out.push(0x43);
        out.push(0x46);
        out.push(0x32);
        let mut hl = vstd::bytes::u32_to_le_bytes(861);
        out.append(&mut hl);
        let mut vb = vstd::bytes::u16_to_le_bytes(header.version);
        out.append(&mut vb);
        let mut wb = vstd::bytes::u32_to_le_bytes(header.width);
        out.append(&mut wb);
        let mut hb = vstd::bytes::u32_to_le_bytes(header.height);
        out.append(&mut hb);
        out.push(header.channels);
        out.push(header.quality);
        out.push(header.block_size);
        serialize_table(&header.quantization_tables[0], &mut out);
        serialize_table(&header.quantization_tables[1], &mut out);
        serialize_table(&header.quantization_tables[2], &mut out);
        let mut ob = vstd::bytes::u64_to_le_bytes(header.original_size);
        out.append(&mut ob);
        let mut cb = vstd::bytes::u64_to_le_bytes(compressed_data.len() as u64);
        out.append(&mut cb);
        let mut ck = vstd::string::StrSliceExecFns::as_bytes_vec(header.checksum.as_str());
        out.append(&mut ck);
        let mut payload = compressed_data;
        let ghost gpayload = payload@;
        out.append(&mut payload);
        proof {
            assert(out@ =~= icf_container_spec(
                header.version,
                header.width,
                header.height,
                header.channels,
                header.quality,
                header.block_size,
                table_bytes(header.quantization_tables@[0]@) + table_bytes(
                    header.quantization_tables@[1]@,
                ) + table_bytes(header.quantization_tables@[2]@),
                header.original_size,
                gpayload.len() as u64,
                vstd::utf8::encode_utf8(header.checksum@),
                gpayload,
            ));
        }
        Ok(out)
    }

    /// Parse a container into its header and the block payload.  The scalar
    /// fields and the quantization tables are read from their fixed offsets;
    /// the digest field must be text.
    pub fn parse_container(&self, icf_data: &[u8]) -> (r: Result<(IcfHeader, Vec<u8>), CodecError>)
        ensures
            match r {
                Ok(hp) => {
                    &&& icf_frame_ok(icf_data@)
                    &&& hp.0.version == icf_fields(icf_data@).0
                    &&& hp.0.width == icf_fields(icf_data@).1
                    &&& hp.0.height == icf_fields(icf_data@).2
                    &&& hp.0.channels == icf_fields(icf_data@).3
                    &&& hp.0.quality == icf_fields(icf_data@).4
                    &&& hp.0.block_size == icf_fields(icf_data@).5
                    &&& hp.0.original_size == icf_fields(icf_data@).6
                    &&& hp.0.compressed_size == icf_fields(icf_data@).7
                    &&& vstd::utf8::encode_utf8(hp.0.checksum@) == icf_fields(icf_data@).8
                    &&& hp.0.quantization_tables@.len() == 3
                    &&& hp.1@ == icf_data@.skip(869)
                },
                Err(e) => !icf_frame_ok(icf_data@) || !vstd::utf8::valid_utf8(
                    icf_fields(icf_data@).8,
                ),
            },
    {
        if icf_data.len() < 8 {
            return Err(CodecError::InvalidFormat(String::new()));
        }
        if !(icf_data[0] == 0x49 && icf_data[1] == 0x43 && icf_data[2] == 0x46 && icf_data[3]
            == 0x32) {
            proof {
                assert(icf_data@.subrange(0, 4) != icf_magic());
            }
            return Err(CodecError::InvalidFormat(String::new()));
        }
        let header_size = vstd::bytes::u32_from_le_bytes(
            vstd::slice::slice_subrange(icf_data, 4, 8),
        );
        if header_size != 861 {
            return Err(CodecError::InvalidFormat(String::new()));
        }
        if icf_data.len() < 869 {
            return Err(CodecError::InvalidFormat(String::new()));
        }
        proof {
            assert(icf_data@.subrange(0, 4) =~= icf_magic());
        }
        let version = vstd::bytes::u16_from_le_bytes(
            vstd::slice::slice_subrange(icf_data, 8, 10),
        );
        let width = vstd::bytes::u32_from_le_bytes(
            vstd::slice::slice_subrange(icf_data, 10, 14),
        );
        let height = vstd::bytes::u32_from_le_bytes(
            vstd::slice::slice_subrange(icf_data, 14, 18),
        );
        let channels = icf_data[18];
        let quality = icf_data[19];
        let block_size = icf_data[20];
        let mut tables: Vec<[[u32; 8]; 8]> = Vec::new();
        tables.push(parse_table(icf_data, 21));
        tables.push(parse_table(icf_data, 277));
        tables.push(parse_table(icf_data, 533));
        let original_size = vstd::bytes::u64_from_le_bytes(
            vstd::slice::slice_subrange(icf_data, 789, 797),
        );
        let compressed_size = vstd::bytes::u64_from_le_bytes(
            vstd::slice::slice_subrange(icf_data, 797, 805),
        );
        let checksum_bytes = vstd::slice::slice_to_vec(
            vstd::slice::slice_subrange(icf_data, 805, 869),
        );
        let checksum = match crate::hashing::string_from_utf8(checksum_bytes) {
            Some(s) => s,
            None => {
                proof {
                    assert(icf_data@.subrange(805, 869) =~= icf_fields(icf_data@).8);
                }
                return Err(CodecError::InvalidFormat(String::new()));
            },
        };
        proof {
            vstd::utf8::decode_utf8_encode_utf8(icf_data@.subrange(805, 869));
        }
        let payload = vstd::slice::slice_to_vec(
            vstd::slice::slice_subrange(icf_data, 869, icf_data.len()),
        );
        proof {
            assert(payload@ =~= icf_data@.skip(869));
        }
        let mut magic = String::new();
        magic.append("ICF2");
        let mut color_space = String::new();
        color_space.append("YCoCg");
        let mut method = String::new();
        method.append("DCT+RLE");
        Ok(
            (
                IcfHeader {
                    magic,
                    version,
                    width,
                    height,
                    channels,
                    color_space,
                    quality,
                    compression_method: method,
                    block_size,
                    quantization_tables: tables,
                    original_size,
                    compressed_size,
                    checksum,
                },
                payload,
            ),
        )
    }

    /// Rebuild the per-channel dequantized coefficient blocks from a parsed
    /// block list: blocks are regrouped by channel and placed by their
    /// coordinates, the DC prediction is undone in raster order, the AC runs
    /// are expanded, and every coefficient is multiplied back by its table
    /// entry.  Blocks outside the image grid are ignored.
    pub fn decompress_blocks(
        &self,
        compressed_blocks: &Vec<CompressedBlock>,
        width: u32,
        height: u32,
        quantization_tables: &Vec<[[u32; 8]; 8]>,
    ) -> (r: Result<Vec<Vec<Vec<[[i64; 8]; 8]>>>, CodecError>)
        requires
            quantization_tables@.len() == 3,
        ensures
            r is Err <==> ((width as int + 7) / 8) * ((height as int + 7) / 8) > usize::MAX,
            match r {
                Ok(channels) => {
                    &&& channels@.len() == 3
                    &&& forall|c: int|
                        0 <= c < 3 ==> (#[trigger] channels@[c])@.len() == ((height + 7) / 8) as int
                    &&& forall|c: int, y: int|
                        0 <= c < 3 && 0 <= y < ((height + 7) / 8) as int ==> (#[trigger] (
                        channels@[c]@[y]))@.len() == ((width + 7) / 8) as int
                    &&& forall|c: int, y: int, x: int, i: int, j: int|
                        0 <= c < 3 && 0 <= y < ((height + 7) / 8) as int && 0 <= x < ((width + 7)
                            / 8) as int && 0 <= i < 8 && 0 <= j < 8 ==> (
                        #[trigger] channels@[c]@[y]@[x]@[i]@[j]) as int == (if i == 0 && j == 0 {
                                restored_dc(
                                    compressed_blocks@,
                                    c,
                                    ((width + 7) / 8) as int,
                                    y * (((width + 7) / 8) as int) + x,
                                )
                            } else {
                                placed_coeff(compressed_blocks@, c, x, y, i, j) as int
                            }) * quantization_tables@[c]@[i]@[j]
                },
                Err(e) => e is InvalidFormat,
            },
    {
        let bx = ((width as u64 + 7) / 8) as usize;
        let by = ((height as u64 + 7) / 8) as usize;
        if by != 0 && bx > usize::MAX / by {
            proof {
                vstd::arithmetic::div_mod::lemma_fundamental_div_mod(
                    usize::MAX as int,
                    by as int,
                );
                assert(bx * by > usize::MAX) by (nonlinear_arith)
                    requires
                        bx >= (usize::MAX as int) / (by as int) + 1,
                        usize::MAX as int == (by as int) * ((usize::MAX as int) / (by as int))
                            + ((usize::MAX as int) % (by as int)),
                        ((usize::MAX as int) % (by as int)) < by as int,
                        by >= 1,
                ;
            }
            return Err(CodecError::InvalidFormat(String::new()));
        }
        proof {
            if by != 0 {
                assert(bx * by <= (usize::MAX as int / by as int) * by <= usize::MAX)
                    by (nonlinear_arith)
                    requires
                        0 < by <= usize::MAX,
                        0 <= bx <= usize::MAX as int / by as int,
                ;
            } else {
                assert(bx * by == 0) by (nonlinear_arith)
                    requires
                        by == 0,
                ;
            }
        }
        let mut channels: Vec<Vec<Vec<[[i64; 8]; 8]>>> = Vec::new();
        let mut c: usize = 0;
        while c < 3
            invariant
                c <= 3,
                channels@.len() == c,
                quantization_tables@.len() == 3,
                bx == ((width + 7) / 8) as int,
                by == ((height + 7) / 8) as int,
                bx * by <= usize::MAX,
                forall|cc: int| 0 <= cc < c ==> (#[trigger] channels@[cc])@.len() == by,
                forall|cc: int, y: int|
                    0 <= cc < c && 0 <= y < by ==> (#[trigger] (channels@[cc]@[y]))@.len() == bx,
                forall|cc: int, y: int, x: int, i: int, j: int|
                    0 <= cc < c && 0 <= y < by && 0 <= x < bx && 0 <= i < 8 && 0 <= j < 8 ==> (
                    #[trigger] channels@[cc]@[y]@[x]@[i]@[j]) as int == (if i == 0 && j == 0 {
                            restored_dc(compressed_blocks@, cc, bx as int, y * (bx as int) + x)
                        } else {
                            placed_coeff(compressed_blocks@, cc, x, y, i, j) as int
                        }) * quantization_tables@[cc]@[i]@[j],
            decreases 3 - c,
        {
            // scatter this channel's blocks into a grid of quantized blocks
            let mut grid: Vec<[[i16; 8]; 8]> = Vec::new();
            let total = bx * by;
            let mut g: usize = 0;
            while g < total
                invariant
                    g <= total,
                    grid@.len() == g,
                    forall|m: int, i: int, j: int|
                        0 <= m < g && 0 <= i < 8 && 0 <= j < 8 ==> (
                        #[trigger] grid@[m]@[i]@[j]) == 0i16,
                decreases total - g,
            {
                grid.push([[0i16; 8]; 8]);
                g = g + 1;
            }
            proof {
                assert forall|m: int, i: int, j: int|
                    0 <= m < total && 0 <= i < 8 && 0 <= j < 8 implies #[trigger] grid@[m]@[i]@[j]
                    == placed_coeff(
                    compressed_blocks@.take(0),
                    c as int,
                    m % (bx as int),
                    m / (bx as int),
                    i,
                    j,
                ) by {
                    assert(compressed_blocks@.take(0).len() == 0);
                }
            }
            let nb = compressed_blocks.len();
            let mut b: usize = 0;
            while b < nb
                invariant
                    b <= nb,
                    nb == compressed_blocks@.len(),
                    grid@.len() == total,
                    total == bx * by,
                    bx * by <= usize::MAX,
                    c < 3,
                    forall|m: int, i: int, j: int|
                        0 <= m < total && 0 <= i < 8 && 0 <= j < 8 ==> (
                        #[trigger] grid@[m]@[i]@[j]) == placed_coeff(
                            compressed_blocks@.take(b as int),
                            c as int,
                            m % (bx as int),
                            m / (bx as int),
                            i,
                            j,
                        ),
                decreases nb - b,
            {
                let blk = &compressed_blocks[b];
                let ghost pre_take = compressed_blocks@.take(b as int);
                proof {
                    assert(compressed_blocks@.take(b as int + 1).drop_last() =~= pre_take);
                    assert(compressed_blocks@.take(b as int + 1).last()
                        == compressed_blocks@[b as int]);
                    crate::quant::lemma_zigzag_pos_inverse();
                }
                if blk.channel as usize == c && (blk.y as usize) < by && (blk.x as usize) < bx {
                    let ac = Quantization::run_length_decode(blk.ac_coefficients.as_slice());
                    let mut zigzag: Vec<i16> = Vec::new();
                    zigzag.push(blk.dc_coefficient);
                    let mut z: usize = 0;
                    while z < 63
                        invariant
                            z <= 63,
                            zigzag@.len() == z + 1,
                            ac@.len() == 64,
                            zigzag@[0] == compressed_blocks@[b as int].dc_coefficient,
                            forall|k: int| 1 <= k <= z ==> zigzag@[k] == ac@[k - 1],
                            ac@ == pad_to_64(
                                rle_decode_raw(
                                    compressed_blocks@[b as int].ac_coefficients@,
                                ),
                            ),
                        decreases 63 - z,
                    {
                        zigzag.push(ac[z]);
                        z = z + 1;
                    }
                    let qblock = Quantization::zigzag_to_block(zigzag.as_slice());
                    proof {
                        assert((blk.y as int) * bx + (blk.x as int) < total) by (nonlinear_arith)
                            requires
                                0 <= (blk.y as int) < by,
                                0 <= (blk.x as int) < bx,
                                total == bx * by,
                        ;
                    }
                    let idx = (blk.y as usize) * bx + (blk.x as usize);
                    proof {
                        vstd::arithmetic::div_mod::lemma_fundamental_div_mod_converse(
                            idx as int,
                            bx as int,
                            blk.y as int,
                            blk.x as int,
                        );
                        crate::quant::lemma_zigzag_pos_inverse();
                    }
                    grid.set(idx, qblock);
                    proof {
                        assert forall|m: int, i: int, j: int|
                            0 <= m < total && 0 <= i < 8 && 0 <= j < 8 implies (
                            #[trigger] grid@[m]@[i]@[j]) == placed_coeff(
                            compressed_blocks@.take(b as int + 1),
                            c as int,
                            m % (bx as int),
                            m / (bx as int),
                            i,
                            j,
                        ) by {
                            vstd::arithmetic::div_mod::lemma_fundamental_div_mod(
                                m,
                                bx as int,
                            );
                            vstd::arithmetic::div_mod::lemma_mod_bound(m, bx as int);
                            if m == idx as int {
                                let k = ZIGZAG_POS@[i]@[j] as int;
                                assert(0 <= k < 64);
                                assert(zz_i(k) == i && zz_j(k) == j);
                                assert(grid@[m]@[i]@[j] == zigzag@[k]);
                            } else {
                                assert(m % (bx as int) != blk.x as int || m / (bx as int)
                                    != blk.y as int) by {
                                    if m % (bx as int) == blk.x as int && m / (bx as int)
                                        == blk.y as int {
                                        assert(m == (bx as int) * (m / (bx as int)) + m % (
                                        bx as int));
                                        assert(idx as int == (bx as int) * (blk.y as int)
                                            + blk.x as int) by (nonlinear_arith)
                                            requires
                                                idx as int == (blk.y as int) * (bx as int)
                                                    + blk.x as int,
                                        ;
                                    }
                                }
                            }
                        }
                    }
                } else {
                    proof {
                        assert forall|m: int, i: int, j: int|
                            0 <= m < total && 0 <= i < 8 && 0 <= j < 8 implies (
                            #[trigger] grid@[m]@[i]@[j]) == placed_coeff(
                            compressed_blocks@.take(b as int + 1),
                            c as int,
                            m % (bx as int),
                            m / (bx as int),
                            i,
                            j,
                        ) by {
                            vstd::arithmetic::div_mod::lemma_fundamental_div_mod(
                                m,
                                bx as int,
                            );
                            vstd::arithmetic::div_mod::lemma_mod_bound(m, bx as int);
                            vstd::arithmetic::div_mod::lemma_div_pos_is_pos(m, bx as int);
                            if compressed_blocks@[b as int].channel as int == c as int
                                && compressed_blocks@[b as int].x as int == m % (bx as int)
                                && compressed_blocks@[b as int].y as int == m / (bx as int) {
                                assert(m / (bx as int) < by) by (nonlinear_arith)
                                    requires
                                        0 <= m < bx * by,
                                        m == (bx as int) * (m / (bx as int)) + m % (bx as int),
                                        0 <= m % (bx as int) < bx,
                                        bx >= 1,
                                        by >= 0,
                                        m / (bx as int) >= 0,
                                ;
                            }
                        }
                    }
                }
                b = b + 1;
            }
            proof {
                assert(compressed_blocks@.take(nb as int) =~= compressed_blocks@);
            }
            // undo the DC prediction in raster order
            let mut prev_dc: i16 = 0;
            let mut g2: usize = 0;
            while g2 < total
                invariant
                    g2 <= total,
                    grid@.len() == total,
                    total == bx * by,
                    c < 3,
                    prev_dc as int == restored_dc(
                        compressed_blocks@,
                        c as int,
                        bx as int,
                        g2 as int - 1,
                    ),
                    forall|m: int, i: int, j: int|
                        0 <= m < total && 0 <= i < 8 && 0 <= j < 8 && !(i == 0 && j == 0) ==> (
                        #[trigger] grid@[m]@[i]@[j]) == placed_coeff(
                            compressed_blocks@,
                            c as int,
                            m % (bx as int),
                            m / (bx as int),
                            i,
                            j,
                        ),
                    forall|m: int|
                        g2 <= m < total ==> (#[trigger] grid@[m]@[0]@[0]) == placed_coeff(
                            compressed_blocks@,
                            c as int,
                            m % (bx as int),
                            m / (bx as int),
                            0,
                            0,
                        ),
                    forall|m: int|
                        0 <= m < g2 ==> (#[trigger] grid@[m]@[0]@[0]) as int == restored_dc(
                            compressed_blocks@,
                            c as int,
                            bx as int,
                            m,
                        ),
                decreases total - g2,
            {
                let mut qb = grid[g2];
                let dc = dc_add(qb[0][0], prev_dc);
                qb[0][0] = dc;
                grid.set(g2, qb);
                prev_dc = dc;
                g2 = g2 + 1;
            }
            // dequantize into rows of coefficient blocks
            let table = &quantization_tables[c];
            let mut rows: Vec<Vec<[[i64; 8]; 8]>> = Vec::new();
            let mut y: usize = 0;
            while y < by
                invariant
                    y <= by,
                    rows@.len() == y,
                    grid@.len() == total,
                    total == bx * by,
                    c < 3,
                    quantization_tables@.len() == 3,
                    table@ == quantization_tables@[c as int]@,
                    forall|yy: int| 0 <= yy < y ==> (#[trigger] rows@[yy])@.len() == bx,
                    forall|m: int, i: int, j: int|
                        0 <= m < total && 0 <= i < 8 && 0 <= j < 8 ==> (
                        #[trigger] grid@[m]@[i]@[j]) as int == (if i == 0 && j == 0 {
                            restored_dc(compressed_blocks@, c as int, bx as int, m)
                        } else {
                            placed_coeff(
                                compressed_blocks@,
                                c as int,
                                m % (bx as int),
                                m / (bx as int),
                                i,
                                j,
                            ) as int
                        }),
                    forall|yy: int, xx: int, i: int, j: int|
                        0 <= yy < y && 0 <= xx < bx && 0 <= i < 8 && 0 <= j < 8 ==> (
                        #[trigger] rows@[yy]@[xx]@[i]@[j]) as int == (if i == 0 && j == 0 {
                            restored_dc(
                                compressed_blocks@,
                                c as int,
                                bx as int,
                                yy * (bx as int) + xx,
                            )
                        } else {
                            placed_coeff(compressed_blocks@, c as int, xx, yy, i, j) as int
                        }) * quantization_tables@[c as int]@[i]@[j],
                decreases by - y,
            {
                let mut row: Vec<[[i64; 8]; 8]> = Vec::new();
                let mut x: usize = 0;
                while x < bx
                    invariant
                        x <= bx,
                        y < by,
                        row@.len() == x,
                        grid@.len() == total,
                        total == bx * by,
                        c < 3,
                        quantization_tables@.len() == 3,
                        table@ == quantization_tables@[c as int]@,
                        forall|m: int, i: int, j: int|
                            0 <= m < total && 0 <= i < 8 && 0 <= j < 8 ==> (
                            #[trigger] grid@[m]@[i]@[j]) as int == (if i == 0 && j == 0 {
                                restored_dc(compressed_blocks@, c as int, bx as int, m)
                            } else {
                                placed_coeff(
                                    compressed_blocks@,
                                    c as int,
                                    m % (bx as int),
                                    m / (bx as int),
                                    i,
                                    j,
                                ) as int
                            }),
                        forall|xx: int, i: int, j: int|
                            0 <= xx < x && 0 <= i < 8 && 0 <= j < 8 ==> (
                            #[trigger] row@[xx]@[i]@[j]) as int == (if i == 0 && j == 0 {
                                restored_dc(
                                    compressed_blocks@,
                                    c as int,
                                    bx as int,
                                    y * (bx as int) + xx,
                                )
                            } else {
                                placed_coeff(compressed_blocks@, c as int, xx, y as int, i, j)
                                    as int
                            }) * quantization_tables@[c as int]@[i]@[j],
                    decreases bx - x,
                {
                    proof {
                        assert(y * bx + x < total) by (nonlinear_arith)
                            requires
                                0 <= y < by,
                                0 <= x < bx,
                                total == bx * by,
                        ;
                    }
                    let idx = y * bx + x;
                    let deq = Quantization::dequantize_block(&grid[idx], table);
                    proof {
                        vstd::arithmetic::div_mod::lemma_fundamental_div_mod_converse(
                            idx as int,
                            bx as int,
                            y as int,
                            x as int,
                        );
                    }
                    row.push(deq);
                    x = x + 1;
                }
                rows.push(row);
                y = y + 1;
            }
            channels.push(rows);
            c = c + 1;
        }
        Ok(channels)
    }
}

/// Parsing a freshly framed container restores the header fields: in
/// particular the image dimensions survive the round trip.
pub proof fn lemma_container_fields_round_trip(
    version: u16,
    width: u32,
    height: u32,
    channels: u8,
    quality: u8,
    block_size: u8,
    tables: Seq<u8>,
    original_size: u64,
    compressed_size: u64,
    checksum: Seq<u8>,
    payload: Seq<u8>,
)
    requires
        tables.len() == 768,
        checksum.len() == 64,
    ensures
        ({
            let c = icf_container_spec(
                version,
                width,
                height,
                channels,
                quality,
                block_size,
                tables,
                original_size,
                compressed_size,
                checksum,
                payload,
            );
            &&& icf_frame_ok(c)
            &&& icf_fields(c).0 == version
            &&& icf_fields(c).1 == width
            &&& icf_fields(c).2 == height
            &&& icf_fields(c).3 == channels
            &&& icf_fields(c).4 == quality
            &&& icf_fields(c).5 == block_size
            &&& icf_fields(c).6 == original_size
            &&& icf_fields(c).7 == compressed_size
            &&& icf_fields(c).8 == checksum
            &&& c.skip(869) == payload
        }),
{
    let c = icf_container_spec(
        version,
        width,
        height,
        channels,
        quality,
        block_size,
        tables,
        original_size,
        compressed_size,
        checksum,
        payload,
    );
    vstd::bytes::lemma_auto_spec_u16_to_from_le_bytes();
    vstd::bytes::lemma_auto_spec_u32_to_from_le_bytes();
    vstd::bytes::lemma_auto_spec_u64_to_from_le_bytes();
    assert(c.subrange(0, 4) =~= icf_magic());
    assert(c.subrange(4, 8) =~= vstd::bytes::spec_u32_to_le_bytes(861));
    assert(c.subrange(8, 10) =~= vstd::bytes::spec_u16_to_le_bytes(version));
    assert(c.subrange(10, 14) =~= vstd::bytes::spec_u32_to_le_bytes(width));
    assert(c.subrange(14, 18) =~= vstd::bytes::spec_u32_to_le_bytes(height));
    assert(c[18] == channels);
    assert(c[19] == quality);
    assert(c[20] == block_size);
    assert(c.subrange(789, 797) =~= vstd::bytes::spec_u64_to_le_bytes(original_size));
    assert(c.subrange(797, 805) =~= vstd::bytes::spec_u64_to_le_bytes(compressed_size));
    assert(c.subrange(805, 869) =~= checksum);
    assert(c.skip(869) =~= payload);
}

} // verus!
