//! Bandwidth-adaptive frames: the per-block compression level map and the
//! `BA` frame that holds independently compressed blocks:
//!
//! `"BA" | version (1) | block count (4 LE) | original size (8 LE) |
//! block size (4 LE) | [compressed length (4 LE) + compressed block]*`

use vstd::prelude::*;
use crate::bytes::{le32, le64, get32, get64, push_u32, push_u64, read_u32, read_u64, lemma_le32_roundtrip, lemma_le64_roundtrip};
use crate::error::CpacError;
use crate::framing::{blobs_view, lp_bytes, parse_lp, write_lp, read_lp, lemma_lp_roundtrip};

verus! {

/// `BA` frame version.
pub const BA_VERSION: u8 = 1;

/// Size of the `BA` frame header.
pub const BA_HEADER_SIZE: usize = 19;

/// Compression level presets.
#[derive(Clone, Copy, Debug, PartialEq, Eq)]
pub enum CompressionLevel {
    UltraFast,
    Fast,
    Default,
    High,
    Best,
}

/// Summary of bandwidth-adaptive compression.
#[derive(Debug, Clone)]
pub struct BandwidthStats {
    pub blocks: usize,
    pub total_input: usize,
    pub total_output: usize,
    pub avg_throughput_bps: u64,
    pub final_level: i32,
}

/// The preset an integer level falls in.
pub open spec fn level_preset(level: i32) -> CompressionLevel {
    if 0 <= level <= 1 {
        CompressionLevel::UltraFast
    } else if 2 <= level <= 3 {
        CompressionLevel::Fast
    } else if 4 <= level <= 9 {
        CompressionLevel::Default
    } else if 10 <= level <= 15 {
        CompressionLevel::High
    } else {
        CompressionLevel::Best
    }
}

/// Maps an integer level to its preset: 0–1 ultra-fast, 2–3 fast, 4–9
/// default, 10–15 high, anything else best.
pub fn level_from_i32(level: i32) -> (r: CompressionLevel)
    ensures
        r == level_preset(level),
{
    if 0 <= level && level <= 1 {
        CompressionLevel::UltraFast
    } else if 2 <= level && level <= 3 {
        CompressionLevel::Fast
    } else if 4 <= level && level <= 9 {
        CompressionLevel::Default
    } else if 10 <= level && level <= 15 {
        CompressionLevel::High
    } else {
        CompressionLevel::Best
    }
}

/// The level the controller starts at: midway between the bounds, the
/// sum halved toward zero.
pub fn initial_level(min_level: i32, max_level: i32) -> (r: i32)
    requires
        i32::MIN <= min_level + max_level <= i32::MAX,
    ensures
        r as int == (if min_level + max_level >= 0 {
            (min_level + max_level) / 2
        } else {
            -((-(min_level + max_level)) / 2)
        }),
        min_level <= max_level ==> min_level <= r <= max_level,
{
    let s = min_level + max_level;
    if s >= 0 {
        s / 2
    } else {
        -((-(s as i64)) / 2) as i32
    }
}

/// The level after a step of `delta` levels, kept within the bounds.
pub open spec fn stepped_level(current: int, delta: int, min_level: int, max_level: int) -> int {
    let t = current + delta;
    if t < min_level {
        min_level
    } else if t > max_level {
        max_level
    } else {
        t
    }
}

/// Moves the level by `delta` and clamps it to `[min_level, max_level]`; the
/// controller's level never leaves those bounds.
pub fn step_level(current: i32, delta: i32, min_level: i32, max_level: i32) -> (r: i32)
    requires
        min_level <= max_level,
        i32::MIN <= current + delta <= i32::MAX,
    ensures
        r as int == stepped_level(current as int, delta as int, min_level as int, max_level as int),
        min_level <= r <= max_level,
{
    let t = current + delta;
    if t < min_level {
        min_level
    } else if t > max_level {
        max_level
    } else {
        t
    }
}

/// Whether `d` is a `BA` frame.
pub open spec fn is_bandwidth_frame_spec(d: Seq<u8>) -> bool {
    d.len() >= 19 && d[0] == 0x42u8 && d[1] == 0x41u8 && d[2] == BA_VERSION
}

/// Checks whether data is a bandwidth-adaptive frame.
pub fn is_bandwidth_frame(data: &[u8]) -> (r: bool)
    ensures
        r == is_bandwidth_frame_spec(data@),
{
    data.len() >= 19 && data[0] == 0x42u8 && data[1] == 0x41u8 && data[2] == BA_VERSION
}

/// The `BA` frame of compressed blocks (counts and sizes truncated to their fields).
pub open spec fn bandwidth_frame_bytes(original_size: u64, block_size: u32, blocks: Seq<Seq<u8>>) -> Seq<u8> {
    seq![0x42u8, 0x41u8, BA_VERSION] + le32(blocks.len() as u32) + le64(original_size) + le32(block_size)
        + lp_bytes(blocks)
}

/// The original size and compressed blocks of a `BA` frame, or `None` when it is
/// not one or a block is truncated. Bytes after the last block are not read.
pub open spec fn parse_bandwidth_frame(d: Seq<u8>) -> Option<(u64, Seq<Seq<u8>>)> {
    if !is_bandwidth_frame_spec(d) {
        None
    } else {
        match parse_lp(d, 19, get32(d, 3) as int) {
            None => None,
            Some((bs, _)) => Some((get64(d, 7), bs)),
        }
    }
}

/// Builds a `BA` frame from the compressed blocks.
pub fn write_bandwidth_frame(original_size: u64, block_size: u32, blocks: &[Vec<u8>]) -> (r: Vec<u8>)
    ensures
        r@ == bandwidth_frame_bytes(original_size, block_size, blobs_view(blocks@)),
{
    let mut out: Vec<u8> = Vec::new();
    out.push(0x42u8);
    out.push(0x41u8);
    out.push(BA_VERSION);
    push_u32(&mut out, blocks.len() as u32);
    push_u64(&mut out, original_size);
    push_u32(&mut out, block_size);
    write_lp(&mut out, blocks);
    assert(blobs_view(blocks@).len() == blocks@.len());
    assert(out@ =~= bandwidth_frame_bytes(original_size, block_size, blobs_view(blocks@)));
    out
}

/// Reads a `BA` frame: its original size and compressed blocks (the part of
/// decompression before each block is decompressed).
pub fn read_bandwidth_frame(data: &[u8]) -> (r: Result<(u64, Vec<Vec<u8>>), CpacError>)
    ensures
        r is Ok <==> parse_bandwidth_frame(data@) is Some,
        r matches Ok((n, bs)) ==> parse_bandwidth_frame(data@) == Some((n, blobs_view(bs@))),
        r matches Err(e) ==> e is InvalidFrame,
{
    if !is_bandwidth_frame(data) {
        return Err(CpacError::InvalidFrame("not a bandwidth-adaptive frame".to_string()));
    }
    let num_blocks = read_u32(data, 3);
    let original_size = read_u64(data, 7);
    match read_lp(data, 19, num_blocks as usize) {
        Some((bs, _)) => Ok((original_size, bs)),
        None => Err(CpacError::InvalidFrame("truncated block".to_string())),
    }
}

/// A `BA` frame reads back to its original size and blocks, when there are
/// fewer than 2³² blocks, each shorter than 2³² bytes.
pub proof fn lemma_bandwidth_frame_roundtrip(original_size: u64, block_size: u32, blocks: Seq<Seq<u8>>)
    requires
        blocks.len() <= u32::MAX,
        forall|i: int| 0 <= i < blocks.len() ==> #[trigger] blocks[i].len() <= u32::MAX,
    ensures
        parse_bandwidth_frame(bandwidth_frame_bytes(original_size, block_size, blocks)) == Some((original_size, blocks)),
{
    let pre = seq![0x42u8, 0x41u8, BA_VERSION] + le32(blocks.len() as u32) + le64(original_size) + le32(block_size);
    let d = bandwidth_frame_bytes(original_size, block_size, blocks);
    assert(d =~= pre + lp_bytes(blocks) + Seq::<u8>::empty());
    lemma_lp_roundtrip(pre, blocks, Seq::<u8>::empty());
    assert(d.subrange(3, 7) =~= le32(blocks.len() as u32));
    lemma_le32_roundtrip(blocks.len() as u32, d, 3);
    assert(d.subrange(7, 15) =~= le64(original_size));
    lemma_le64_roundtrip(original_size, d, 7);
}

} // verus!
