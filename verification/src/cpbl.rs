//! The block-parallel `CPBL` frame: independently compressed blocks with an
//! optional shared metadata blob (v2) and shared dictionary (v3).
//!
//! `"CPBL" | version (1) | block count (4 LE) | original size (8 LE) |
//! [v2, v3: metadata length (4 LE)] | [v3: dictionary length (4 LE)] |
//! block sizes (4 LE each) | [v2, v3: block flags (1 each) | metadata] |
//! [v3: dictionary] | blocks`
//!
//! Also the block-size rule: large blocks for redundant data, small ones for
//! high-entropy data, never more than half the file and never below 4 MiB.

use vstd::prelude::*;
use crate::bytes::{le32, le64, get32, get64, push_u32, push_u64, push_all, read_u32, read_u64, slice_to_vec, lemma_le32_roundtrip, lemma_le64_roundtrip};
use crate::error::CpacError;
use crate::framing::{blobs_view, u32s_bytes, write_u32s, lemma_u32s_roundtrip};
use crate::accel::Backend;
use crate::decimal::{decimal_digits, push_digits};
use vstd::string::StringExecFns;

verus! {

/// `CPBL` v1: no shared metadata.
pub const CPBL_VERSION_V1: u8 = 1;
/// `CPBL` v2: shared metadata.
pub const CPBL_VERSION_V2: u8 = 2;
/// `CPBL` v3: shared metadata and dictionary.
pub const CPBL_VERSION_V3: u8 = 3;

/// The `CPBL` magic bytes.
pub open spec fn cpbl_magic() -> Seq<u8> {
    seq![0x43u8, 0x50u8, 0x42u8, 0x4Cu8]
}

/// Whether `d` starts with the `CPBL` magic.
pub open spec fn is_cpbl_spec(d: Seq<u8>) -> bool {
    d.len() >= 4 && d.subrange(0, 4) == cpbl_magic()
}

/// Checks whether data starts with the `CPBL` magic.
pub fn is_cpbl(data: &[u8]) -> (r: bool)
    ensures
        r == is_cpbl_spec(data@),
{
    if data.len() < 4 {
        return false;
    }
    let r = data[0] == 0x43u8 && data[1] == 0x50u8 && data[2] == 0x42u8 && data[3] == 0x4Cu8;
    proof {
        if r {
            assert(data@.subrange(0, 4) =~= cpbl_magic());
        } else if data@.subrange(0, 4) == cpbl_magic() {
            assert(data@[0] == data@.subrange(0, 4)[0]);
            assert(data@[1] == data@.subrange(0, 4)[1]);
            assert(data@[2] == data@.subrange(0, 4)[2]);
            assert(data@[3] == data@.subrange(0, 4)[3]);
        }
    }
    r
}

/// The blocks laid end to end.
pub open spec fn concat_blocks(bs: Seq<Seq<u8>>) -> Seq<u8>
    decreases bs.len(),
{
    if bs.len() == 0 {
        Seq::empty()
    } else {
        concat_blocks(bs.drop_last()) + bs.last()
    }
}

/// The sizes of the blocks (truncated to 32 bits).
pub open spec fn block_sizes(bs: Seq<Seq<u8>>) -> Seq<u32> {
    Seq::new(bs.len(), |i: int| bs[i].len() as u32)
}

/// The version a frame with this metadata and dictionary gets.
pub open spec fn cpbl_version(meta: Seq<u8>, dict: Seq<u8>) -> u8 {
    if dict.len() > 0 {
        CPBL_VERSION_V3
    } else if meta.len() > 0 {
        CPBL_VERSION_V2
    } else {
        CPBL_VERSION_V1
    }
}

/// The `CPBL` frame of the blocks (lengths truncated to their fields).
pub open spec fn cpbl_frame(original_size: u64, flags: Seq<u8>, meta: Seq<u8>, dict: Seq<u8>, blocks: Seq<Seq<u8>>) -> Seq<u8> {
    let v = cpbl_version(meta, dict);
    cpbl_magic() + seq![v] + le32(blocks.len() as u32) + le64(original_size)
        + (if v >= CPBL_VERSION_V2 { le32(meta.len() as u32) } else { Seq::empty() })
        + (if v == CPBL_VERSION_V3 { le32(dict.len() as u32) } else { Seq::empty() })
        + u32s_bytes(block_sizes(blocks))
        + (if v >= CPBL_VERSION_V2 { flags + meta } else { Seq::empty() })
        + (if v == CPBL_VERSION_V3 { dict } else { Seq::empty() })
        + concat_blocks(blocks)
}

/// Cuts `n` blocks out of `d` from `cursor`, their sizes read from the table at `t`.
pub open spec fn cpbl_blocks(d: Seq<u8>, t: int, cursor: int, n: int) -> Option<(Seq<Seq<u8>>, int)>
    decreases n,
{
    if n <= 0 {
        Some((Seq::empty(), cursor))
    } else {
        match cpbl_blocks(d, t, cursor, n - 1) {
            None => None,
            Some(st) => {
                let sz = get32(d, t + 4 * (n - 1)) as int;
                if st.1 + sz > d.len() {
                    None
                } else {
                    Some((st.0.push(d.subrange(st.1, st.1 + sz)), st.1 + sz))
                }
            },
        }
    }
}

/// The header of a `CPBL` frame: version, block count, original size,
/// metadata length, dictionary length and header length; `None` when it is
/// short, has another magic or an unknown version.
pub open spec fn cpbl_header(d: Seq<u8>) -> Option<(u8, int, u64, int, int, int)> {
    if d.len() < 17 || d.subrange(0, 4) != cpbl_magic() || !(d[4] == 1 || d[4] == 2 || d[4] == 3) {
        None
    } else if d[4] == CPBL_VERSION_V3 {
        if d.len() < 25 {
            None
        } else {
            Some((d[4], get32(d, 5) as int, get64(d, 9), get32(d, 17) as int, get32(d, 21) as int, 25))
        }
    } else if d[4] == CPBL_VERSION_V2 {
        if d.len() < 21 {
            None
        } else {
            Some((d[4], get32(d, 5) as int, get64(d, 9), get32(d, 17) as int, 0, 21))
        }
    } else {
        Some((d[4], get32(d, 5) as int, get64(d, 9), 0, 0, 17))
    }
}

/// The content of a `CPBL` frame: original size, block flags, shared metadata,
/// dictionary and blocks; `None` when malformed or truncated. A v1 frame has
/// zero flags and no metadata or dictionary.
pub open spec fn parse_cpbl(d: Seq<u8>) -> Option<(u64, Seq<u8>, Seq<u8>, Seq<u8>, Seq<Seq<u8>>)> {
    match cpbl_header(d) {
        None => None,
        Some((v, bc, orig, ml, dl, he)) => {
            let te = he + 4 * bc;
            if d.len() < te {
                None
            } else if v >= CPBL_VERSION_V2 {
                let fe = te + bc;
                let me = fe + ml;
                let de = me + dl;
                if d.len() < fe || d.len() < me || (dl > 0 && d.len() < de) {
                    None
                } else {
                    match cpbl_blocks(d, he, de, bc) {
                        None => None,
                        Some((bs, _)) => Some((orig, d.subrange(te, fe), d.subrange(fe, me),
                            if dl > 0 { d.subrange(me, de) } else { Seq::empty() }, bs)),
                    }
                }
            } else {
                match cpbl_blocks(d, he, te, bc) {
                    None => None,
                    Some((bs, _)) => Some((orig, Seq::new(bc as nat, |i: int| 0u8), Seq::empty(), Seq::empty(), bs)),
                }
            }
        },
    }
}

/// The content of a block-parallel frame.
pub struct CpblFrame {
    pub original_size: u64,
    pub block_flags: Vec<u8>,
    pub shared_metadata: Vec<u8>,
    pub dictionary: Vec<u8>,
    pub blocks: Vec<Vec<u8>>,
}

impl View for CpblFrame {
    type V = (u64, Seq<u8>, Seq<u8>, Seq<u8>, Seq<Seq<u8>>);

    open spec fn view(&self) -> Self::V {
        (self.original_size, self.block_flags@, self.shared_metadata@, self.dictionary@, blobs_view(self.blocks@))
    }
}

/// Builds a `CPBL` frame: v3 when there is a dictionary, v2 when there is
/// shared metadata, v1 otherwise.
pub fn write_cpbl_frame(original_size: u64, block_flags: &[u8], shared_metadata: &[u8], dictionary: &[u8], blocks: &[Vec<u8>]) -> (r: Vec<u8>)
    ensures
        r@ == cpbl_frame(original_size, block_flags@, shared_metadata@, dictionary@, blobs_view(blocks@)),
{
    let ghost bs = blobs_view(blocks@);
    let v: u8 = if dictionary.len() > 0 {
        CPBL_VERSION_V3
    } else if shared_metadata.len() > 0 {
        CPBL_VERSION_V2
    } else {
        CPBL_VERSION_V1
    };
    let mut out: Vec<u8> = Vec::new();
    out.push(0x43u8);
    out.push(0x50u8);
    out.push(0x42u8);
    out.push(0x4Cu8);
    out.push(v);
    push_u32(&mut out, blocks.len() as u32);
    push_u64(&mut out, original_size);
    if v >= CPBL_VERSION_V2 {
        push_u32(&mut out, shared_metadata.len() as u32);
    }
    if v == CPBL_VERSION_V3 {
        push_u32(&mut out, dictionary.len() as u32);
    }
    let mut sizes: Vec<u32> = Vec::new();
    let mut i: usize = 0;
    while i < blocks.len()
        invariant
            i <= blocks.len(),
            bs == blobs_view(blocks@),
            sizes@ == block_sizes(bs).subrange(0, i as int),
        decreases blocks.len() - i,
    {
        sizes.push(blocks[i].len() as u32);
        i = i + 1;
        assert(sizes@ =~= block_sizes(bs).subrange(0, i as int));
    }
    assert(sizes@ =~= block_sizes(bs));
    write_u32s(&mut out, sizes.as_slice());
    if v >= CPBL_VERSION_V2 {
        push_all(&mut out, block_flags);
        push_all(&mut out, shared_metadata);
    }
    if v == CPBL_VERSION_V3 {
        push_all(&mut out, dictionary);
    }
    let ghost head = out@;
    let mut j: usize = 0;
    while j < blocks.len()
        invariant
            j <= blocks.len(),
            bs == blobs_view(blocks@),
            out@ == head + concat_blocks(bs.subrange(0, j as int)),
        decreases blocks.len() - j,
    {
        push_all(&mut out, blocks[j].as_slice());
        proof {
            assert(bs.subrange(0, j + 1).drop_last() =~= bs.subrange(0, j as int));
        }
        j = j + 1;
    }
    assert(bs.subrange(0, blocks@.len() as int) =~= bs);
    assert(out@ =~= cpbl_frame(original_size, block_flags@, shared_metadata@, dictionary@, bs));
    out
}

proof fn lemma_cpbl_blocks_none_stays(d: Seq<u8>, t: int, c: int, k: int, n: int)
    requires
        k <= n,
        cpbl_blocks(d, t, c, k) is None,
    ensures
        cpbl_blocks(d, t, c, n) is None,
    decreases n - k,
{
    if k < n {
        lemma_cpbl_blocks_none_stays(d, t, c, k, n - 1);
    }
}

/// Reads a `CPBL` frame (the part of decompression before each block is
/// decompressed).
pub fn read_cpbl_frame(data: &[u8]) -> (r: Result<CpblFrame, CpacError>)
    ensures
        r is Ok <==> parse_cpbl(data@) is Some,
        r matches Ok(f) ==> parse_cpbl(data@) == Some(f@),
        r matches Err(e) ==> e is DecompressFailed,
{
    let d = data;
    if d.len() < 17 {
        return Err(CpacError::DecompressFailed("CPBL data too short".to_string()));
    }
    if !is_cpbl(d) {
        return Err(CpacError::DecompressFailed("not a CPBL frame".to_string()));
    }
    let v = d[4];
    if !(v == 1 || v == 2 || v == 3) {
        return Err(CpacError::DecompressFailed("unsupported CPBL version".to_string()));
    }
    let bc = read_u32(d, 5) as usize;
    let orig = read_u64(d, 9);
    let mut ml: usize = 0;
    let mut dl: usize = 0;
    let mut he: usize = 17;
    if v == CPBL_VERSION_V3 {
        if d.len() < 25 {
            return Err(CpacError::DecompressFailed("CPBL v3 header too short".to_string()));
        }
        ml = read_u32(d, 17) as usize;
        dl = read_u32(d, 21) as usize;
        he = 25;
    } else if v == CPBL_VERSION_V2 {
        if d.len() < 21 {
            return Err(CpacError::DecompressFailed("CPBL v2 header too short".to_string()));
        }
        ml = read_u32(d, 17) as usize;
        he = 21;
    }
    assert(cpbl_header(d@) == Some((v, bc as int, orig, ml as int, dl as int, he as int)));
    if ((d.len() - he) as u64) / 4 < bc as u64 {
        return Err(CpacError::DecompressFailed("CPBL truncated block size table".to_string()));
    }
    let te = he + 4 * bc;
    let mut flags: Vec<u8> = Vec::new();
    let mut meta: Vec<u8> = Vec::new();
    let mut dict: Vec<u8> = Vec::new();
    let mut cursor: usize = te;
    if v >= CPBL_VERSION_V2 {
        if d.len() - te < bc {
            return Err(CpacError::DecompressFailed("CPBL truncated block flags".to_string()));
        }
        let fe = te + bc;
        if d.len() - fe < ml {
            return Err(CpacError::DecompressFailed("CPBL truncated shared metadata".to_string()));
        }
        let me = fe + ml;
        if dl > 0 && d.len() - me < dl {
            return Err(CpacError::DecompressFailed("CPBL v3 truncated dictionary".to_string()));
        }
        if d.len() - me < dl {
            assert(dl == 0);
        }
        flags = slice_to_vec(d, te, fe);
        meta = slice_to_vec(d, fe, me);
        if dl > 0 {
            dict = slice_to_vec(d, me, me + dl);
        }
        cursor = me + dl;
    } else {
        let mut k: usize = 0;
        while k < bc
            invariant
                k <= bc,
                flags@ == Seq::new(k as nat, |i: int| 0u8),
            decreases bc - k,
        {
            flags.push(0u8);
            k = k + 1;
            assert(flags@ =~= Seq::new(k as nat, |i: int| 0u8));
        }
    }
    let c0 = cursor;
    assert(parse_cpbl(d@) == match cpbl_blocks(d@, he as int, c0 as int, bc as int) {
        None => None,
        Some((bs, _)) => Some((orig, flags@, meta@, dict@, bs)),
    });
    let mut blocks: Vec<Vec<u8>> = Vec::new();
    let mut k: usize = 0;
    while k < bc
        invariant
            k <= bc,
            d@ == data@,
            parse_cpbl(d@) == match cpbl_blocks(d@, he as int, c0 as int, bc as int) {
                None => None,
                Some((bs, _)) => Some((orig, flags@, meta@, dict@, bs)),
            },
            he + 4 * bc <= d.len(),
            c0 <= cursor <= d.len(),
            cpbl_blocks(d@, he as int, c0 as int, k as int) == Some((blobs_view(blocks@), cursor as int)),
        decreases bc - k,
    {
        let sz = read_u32(d, he + 4 * k) as usize;
        if d.len() - cursor < sz {
            proof {
                assert(cpbl_blocks(d@, he as int, c0 as int, k + 1) is None);
                lemma_cpbl_blocks_none_stays(d@, he as int, c0 as int, k + 1, bc as int);
            }
            return Err(CpacError::DecompressFailed("CPBL truncated block payload".to_string()));
        }
        let b = slice_to_vec(d, cursor, cursor + sz);
        proof {
            assert(blobs_view(blocks@.push(b)) =~= blobs_view(blocks@).push(b@));
        }
        blocks.push(b);
        cursor = cursor + sz;
        k = k + 1;
    }
    Ok(CpblFrame { original_size: orig, block_flags: flags, shared_metadata: meta, dictionary: dict, blocks })
}

proof fn lemma_concat_prefix(bs: Seq<Seq<u8>>, k: int)
    requires
        0 <= k < bs.len(),
    ensures
        concat_blocks(bs.subrange(0, k + 1)) == concat_blocks(bs.subrange(0, k)) + bs[k],
        concat_blocks(bs.subrange(0, k + 1)).len() <= concat_blocks(bs).len(),
        concat_blocks(bs).subrange(0, concat_blocks(bs.subrange(0, k + 1)).len() as int) == concat_blocks(bs.subrange(0, k + 1)),
    decreases bs.len() - k,
{
    assert(bs.subrange(0, k + 1).drop_last() =~= bs.subrange(0, k));
    if k + 1 < bs.len() {
        lemma_concat_prefix(bs, k + 1);
        let a = concat_blocks(bs.subrange(0, k + 1));
        let b = concat_blocks(bs.subrange(0, k + 2));
        let all = concat_blocks(bs);
        assert(b == a + bs[k + 1]);
        assert forall|i: int| 0 <= i < a.len() implies #[trigger] all.subrange(0, a.len() as int)[i] == a[i] by {
            assert(all.subrange(0, b.len() as int)[i] == b[i]);
        }
        assert(all.subrange(0, a.len() as int) =~= a);
    } else {
        assert(bs.subrange(0, k + 1) =~= bs);
    }
}

proof fn lemma_cpbl_blocks_parse(d: Seq<u8>, t: int, ps: int, bs: Seq<Seq<u8>>, k: int)
    requires
        0 <= t,
        0 <= ps,
        0 <= k <= bs.len(),
        forall|i: int| 0 <= i < bs.len() ==> #[trigger] bs[i].len() <= u32::MAX,
        forall|i: int| 0 <= i < bs.len() ==> get32(d, t + 4 * i) == #[trigger] block_sizes(bs)[i],
        ps + concat_blocks(bs).len() <= d.len(),
        d.subrange(ps, ps + concat_blocks(bs).len()) == concat_blocks(bs),
    ensures
        cpbl_blocks(d, t, ps, k) == Some((bs.subrange(0, k), ps + concat_blocks(bs.subrange(0, k)).len())),
    decreases k,
{
    if k > 0 {
        lemma_cpbl_blocks_parse(d, t, ps, bs, k - 1);
        lemma_concat_prefix(bs, k - 1);
        let pre = concat_blocks(bs.subrange(0, k - 1));
        let all = concat_blocks(bs);
        let c = ps + pre.len();
        assert(block_sizes(bs)[k - 1] == bs[k - 1].len() as u32);
        assert(get32(d, t + 4 * (k - 1)) == bs[k - 1].len());
        let upto = concat_blocks(bs.subrange(0, k));
        assert(upto == pre + bs[k - 1]);
        assert(all.subrange(0, upto.len() as int) == upto);
        assert(d.subrange(c, c + bs[k - 1].len()) =~= bs[k - 1]) by {
            assert forall|i: int| 0 <= i < bs[k - 1].len() implies #[trigger] d.subrange(c, c + bs[k - 1].len())[i] == bs[k - 1][i] by {
                assert(d[c + i] == d.subrange(ps, ps + all.len())[pre.len() + i]);
                assert(all[pre.len() + i] == all.subrange(0, upto.len() as int)[pre.len() + i]);
                assert(upto[pre.len() + i] == bs[k - 1][i]);
            }
        }
        assert(bs.subrange(0, k - 1).push(bs[k - 1]) =~= bs.subrange(0, k));
    } else {
        assert(bs.subrange(0, 0) =~= Seq::<Seq<u8>>::empty());
    }
}

/// A `CPBL` frame reads back to its original size, flags, metadata, dictionary
/// and blocks (flags zero in a v1 frame), when the block count, every block,
/// the metadata and the dictionary fit 32 bits and there is one flag per block.
#[verifier::rlimit(60)]
pub proof fn lemma_cpbl_roundtrip(original_size: u64, flags: Seq<u8>, meta: Seq<u8>, dict: Seq<u8>, blocks: Seq<Seq<u8>>)
    requires
        blocks.len() <= u32::MAX,
        forall|i: int| 0 <= i < blocks.len() ==> #[trigger] blocks[i].len() <= u32::MAX,
        meta.len() <= u32::MAX,
        dict.len() <= u32::MAX,
        flags.len() == blocks.len(),
    ensures
        parse_cpbl(cpbl_frame(original_size, flags, meta, dict, blocks)) == Some((
            original_size,
            if cpbl_version(meta, dict) >= CPBL_VERSION_V2 { flags } else { Seq::new(blocks.len(), |i: int| 0u8) },
            meta,
            dict,
            blocks,
        )),
        is_cpbl_spec(cpbl_frame(original_size, flags, meta, dict, blocks)),
{
    let v = cpbl_version(meta, dict);
    let n = blocks.len();
    let hdr = cpbl_magic() + seq![v] + le32(n as u32) + le64(original_size)
        + (if v >= CPBL_VERSION_V2 { le32(meta.len() as u32) } else { Seq::empty() })
        + (if v == CPBL_VERSION_V3 { le32(dict.len() as u32) } else { Seq::empty() });
    let sizes = block_sizes(blocks);
    let mid = (if v >= CPBL_VERSION_V2 { flags + meta } else { Seq::empty() })
        + (if v == CPBL_VERSION_V3 { dict } else { Seq::empty() });
    let body = concat_blocks(blocks);
    let d = cpbl_frame(original_size, flags, meta, dict, blocks);
    assert(d =~= hdr + u32s_bytes(sizes) + (mid + body));
    lemma_u32s_roundtrip(hdr, sizes, mid + body);
    let he = hdr.len() as int;
    assert(he == if v == CPBL_VERSION_V3 { 25int } else if v == CPBL_VERSION_V2 { 21int } else { 17int });
    assert(d.subrange(0, 4) =~= cpbl_magic());
    assert(d[4] == v);
    assert(d.subrange(5, 9) =~= le32(n as u32));
    lemma_le32_roundtrip(n as u32, d, 5);
    assert(d.subrange(9, 17) =~= le64(original_size));
    lemma_le64_roundtrip(original_size, d, 9);
    if v >= CPBL_VERSION_V2 {
        assert(d.subrange(17, 21) =~= le32(meta.len() as u32));
        lemma_le32_roundtrip(meta.len() as u32, d, 17);
    }
    if v == CPBL_VERSION_V3 {
        assert(d.subrange(21, 25) =~= le32(dict.len() as u32));
        lemma_le32_roundtrip(dict.len() as u32, d, 21);
    }
    let te = he + 4 * n;
    let ps = te + mid.len();
    assert forall|i: int| 0 <= i < n implies get32(d, he + 4 * i) == #[trigger] block_sizes(blocks)[i] by {
        assert(Seq::new(sizes.len(), |j: int| get32(hdr + u32s_bytes(sizes) + (mid + body), hdr.len() + 4 * j))[i] == sizes[i]);
    }
    assert(d.subrange(ps, ps + body.len()) =~= body);
    lemma_cpbl_blocks_parse(d, he, ps, blocks, n as int);
    assert(blocks.subrange(0, n as int) =~= blocks);
    if v >= CPBL_VERSION_V2 {
        assert(d.subrange(te, te + n) =~= flags);
        assert(d.subrange(te + n, te + n + meta.len()) =~= meta);
        if v == CPBL_VERSION_V3 {
            assert(d.subrange(te + n + meta.len(), te + n + meta.len() + dict.len()) =~= dict);
        } else {
            assert(dict.len() == 0);
            assert(dict =~= Seq::<u8>::empty());
        }
    } else {
        assert(meta =~= Seq::<u8>::empty());
        assert(dict =~= Seq::<u8>::empty());
    }
}


/// Default block size: 4 MiB.
pub const DEFAULT_BLOCK_SIZE: usize = 4194304;

/// Minimum input size for parallel compression: 4 MiB.
pub const PARALLEL_THRESHOLD: usize = 4194304;

/// Minimum size of mostly-text input for parallel compression: 32 MiB.
pub const PARALLEL_THRESHOLD_TEXT: usize = 33554432;

/// Small block size (high-entropy or small files): 4 MiB.
pub const BLOCK_SIZE_SMALL: usize = 4194304;

/// Medium block size (medium entropy): 16 MiB.
pub const BLOCK_SIZE_MEDIUM: usize = 16777216;

/// Large block size (low entropy): 32 MiB.
pub const BLOCK_SIZE_LARGE: usize = 33554432;

/// Entropy bands of the data, in bits per byte: below 4, below 6.5, above.
#[derive(Clone, Copy, Debug, PartialEq, Eq)]
pub enum EntropyBand {
    Low,
    Medium,
    High,
}

/// The block size for an entropy band and a file size: the band's ideal
/// size, capped at half the file, but at least the small block size.
pub open spec fn block_size_spec(band: EntropyBand, file_size: usize) -> usize {
    let ideal = match band {
        EntropyBand::Low => BLOCK_SIZE_LARGE,
        EntropyBand::Medium => BLOCK_SIZE_MEDIUM,
        EntropyBand::High => BLOCK_SIZE_SMALL,
    };
    let capped = if ideal < file_size / 2 { ideal } else { (file_size / 2) as usize };
    if capped > BLOCK_SIZE_SMALL { capped } else { BLOCK_SIZE_SMALL }
}

/// Chooses the block size from the entropy band and the file size.
pub fn block_size_for(band: EntropyBand, file_size: usize) -> (r: usize)
    ensures
        r == block_size_spec(band, file_size),
{
    let max_block = file_size / 2;
    let ideal = match band {
        EntropyBand::Low => BLOCK_SIZE_LARGE,
        EntropyBand::Medium => BLOCK_SIZE_MEDIUM,
        EntropyBand::High => BLOCK_SIZE_SMALL,
    };
    let capped = if ideal < max_block { ideal } else { max_block };
    if capped > BLOCK_SIZE_SMALL { capped } else { BLOCK_SIZE_SMALL }
}

/// The block size a requested size means: 0 asks for the default.
pub open spec fn effective_block_size(block_size: usize) -> usize {
    if block_size == 0 { DEFAULT_BLOCK_SIZE } else { block_size }
}

/// Block `i` of `data` cut into blocks of `bs` bytes (the last one shorter).
pub open spec fn block_of(data: Seq<u8>, bs: int, i: int) -> Seq<u8> {
    let lo = i * bs;
    let hi = if lo + bs < data.len() { lo + bs } else { data.len() as int };
    data.subrange(lo, hi)
}

/// Cuts `data` into blocks of `block_size` bytes (the default when 0), the
/// last one shorter; empty data gives no blocks. The blocks laid end to end
/// are `data`.
pub fn split_blocks(data: &[u8], block_size: usize) -> (r: Vec<Vec<u8>>)
    ensures
        r@.len() == (data@.len() + effective_block_size(block_size) - 1) / (effective_block_size(block_size) as int),
        forall|i: int| 0 <= i < r@.len() ==> (#[trigger] r@[i])@ == block_of(data@, effective_block_size(block_size) as int, i),
        concat_blocks(blobs_view(r@)) == data@,
{
    let bs = if block_size == 0 { DEFAULT_BLOCK_SIZE } else { block_size };
    let ghost b = bs as int;
    let mut out: Vec<Vec<u8>> = Vec::new();
    let mut lo: usize = 0;
    let mut i: usize = 0;
    proof {
        assert((0 + b - 1) / b == 0) by (nonlinear_arith)
            requires b > 0;
        if data@.len() > 0 {
            lemma_div_blocks(data@.len() as int, b, 0);
        }
        assert(concat_blocks(blobs_view(out@)) =~= data@.subrange(0, 0));
    }
    while lo < data.len()
        invariant
            bs == effective_block_size(block_size),
            b == bs as int,
            b > 0,
            lo <= data.len(),
            i <= lo,
            lo < data.len() ==> lo == i * b,
            out@.len() == i,
            forall|k: int| 0 <= k < i ==> (#[trigger] out@[k])@ == block_of(data@, b, k),
            concat_blocks(blobs_view(out@)) == data@.subrange(0, lo as int),
            lo == data.len() ==> i == (data@.len() + b - 1) / b,
            lo < data.len() ==> i < (data@.len() + b - 1) / b,
        decreases data.len() - lo,
    {
        let hi = if data.len() - lo > bs { lo + bs } else { data.len() };
        let blk = slice_to_vec(data, lo, hi);
        let ghost before = out@;
        out.push(blk);
        proof {
            assert(blobs_view(out@).drop_last() =~= blobs_view(before));
            assert(data@.subrange(0, hi as int) =~= data@.subrange(0, lo as int) + data@.subrange(lo as int, hi as int));
            assert(i * b + b == (i + 1) * b) by (nonlinear_arith);
            lemma_div_blocks(data@.len() as int, b, i as int);
        }
        lo = hi;
        i = i + 1;
    }
    out
}

proof fn lemma_div_blocks(n: int, b: int, i: int)
    requires
        b > 0,
        0 <= i * b < n,
    ensures
        i < (n + b - 1) / b,
        (i + 1) * b >= n ==> i + 1 == (n + b - 1) / b,
        (i + 1) * b < n ==> i + 1 < (n + b - 1) / b,
{
    assert(i < (n + b - 1) / b) by (nonlinear_arith)
        requires b > 0, 0 <= i * b, i * b < n;
    assert((i + 1) * b >= n ==> i + 1 == (n + b - 1) / b) by (nonlinear_arith)
        requires b > 0, 0 <= i * b, i * b < n;
    assert((i + 1) * b < n ==> i + 1 < (n + b - 1) / b) by (nonlinear_arith)
        requires b > 0, 0 <= i * b, i * b < n;
}

/// Fewest blocks before a shared dictionary is trained.
pub const DICT_TRAIN_MIN_BLOCKS: usize = 3;
/// Most blocks a shared dictionary is trained on.
pub const DICT_TRAIN_MAX_BLOCKS: usize = 8;
/// Largest shared dictionary: 64 KiB.
pub const DICT_MAX_SIZE: usize = 65536;

/// How many leading blocks a shared dictionary is trained on: with the zstd
/// backend (the default), at least three blocks and no dictionary given, the
/// first blocks up to eight; otherwise none is trained.
pub fn dict_training_blocks(backend: Option<Backend>, block_count: usize, has_dictionary: bool) -> (r: Option<usize>)
    ensures
        r == (if (backend is None || backend == Some(Backend::Zstd)) && block_count >= DICT_TRAIN_MIN_BLOCKS
            && !has_dictionary {
            Some(if block_count < DICT_TRAIN_MAX_BLOCKS { block_count } else { DICT_TRAIN_MAX_BLOCKS })
        } else {
            None::<usize>
        }),
{
    let zstd = match backend {
        None => true,
        Some(Backend::Zstd) => true,
        Some(_) => false,
    };
    if zstd && block_count >= DICT_TRAIN_MIN_BLOCKS && !has_dictionary {
        Some(if block_count < DICT_TRAIN_MAX_BLOCKS { block_count } else { DICT_TRAIN_MAX_BLOCKS })
    } else {
        None
    }
}

/// Checks that the decompressed blocks add up to the frame's original size;
/// otherwise the error names both sizes.
pub fn check_cpbl_size(output_len: u64, original_size: u64) -> (r: Result<(), CpacError>)
    ensures
        r is Ok <==> output_len == original_size,
        r matches Err(e) ==> (e matches CpacError::DecompressFailed(m) && m@ == "CPBL size mismatch: expected "@
            + decimal_digits(original_size as nat) + ", got "@ + decimal_digits(output_len as nat)),
{
    if output_len == original_size {
        return Ok(());
    }
    let mut m = "CPBL size mismatch: expected ".to_owned();
    push_digits(&mut m, original_size);
    m.append(", got ");
    push_digits(&mut m, output_len);
    Err(CpacError::DecompressFailed(m))
}

} // verus!
