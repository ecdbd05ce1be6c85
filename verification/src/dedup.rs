//! Content-defined chunking (CDC) and the chunk-dedup index and frame.
//!
//! A Gear-hash splitter cuts the input into chunks, a dedup index keyed by
//! BLAKE3 fingerprints keeps each distinct chunk once, and the `CPDD` frame
//! stores the unique (compressed) chunks once and every chunk by index:
//!
//! `"DD" | version (1) | flags (2 LE) | unique count (4 LE) | total count (4 LE) |
//! original size (8 LE) | [chunk length (4 LE) + chunk]* | [unique index (4 LE)]*`

use vstd::prelude::*;
use crate::bytes::{le16, le32, le64, get32, get64, push_u16, push_u32, push_u64, push_all, read_u32, read_u64, slice_to_vec, lemma_le32_roundtrip, lemma_le64_roundtrip, lemma_le32_at};
use crate::error::CpacError;
use crate::framing::{blobs_view, lp_bytes, parse_lp, write_lp, read_lp, lemma_lp_roundtrip, u32s_bytes, write_u32s, read_u32s, lemma_u32s_roundtrip};

verus! {

/// The BLAKE3 hash of `data` (32 bytes).
pub uninterp spec fn blake3_of(data: Seq<u8>) -> Seq<u8>;

/// BLAKE3 hash of a byte slice.
///
/// Calls `blake3::hash` and copies out `Hash::as_bytes`; the 32 bytes are
/// named by `blake3_of`, a function of the input alone.
#[verifier::external_body]
fn blake3_hash(data: &[u8]) -> (r: [u8; 32])
    ensures
        r@ == blake3_of(data@),
{
    *blake3::hash(data).as_bytes()
}

/// A BLAKE3 chunk fingerprint.
pub type ChunkFingerprint = [u8; 32];

/// Computes the BLAKE3 fingerprint of a data slice.
pub fn fingerprint(data: &[u8]) -> (r: ChunkFingerprint)
    ensures
        r@ == blake3_of(data@),
{
    blake3_hash(data)
}

/// The seed of the Gear table: BLAKE3 of `"cpac-gear-table"`.
pub open spec fn gear_seed() -> Seq<u8> {
    blake3_of(seq![0x63u8, 0x70u8, 0x61u8, 0x63u8, 0x2du8, 0x67u8, 0x65u8, 0x61u8, 0x72u8, 0x2du8, 0x74u8, 0x61u8, 0x62u8, 0x6cu8, 0x65u8])
}

/// Block `i` of the Gear table expansion: BLAKE3 of the seed followed by `i`.
pub open spec fn gear_block(i: int) -> Seq<u8> {
    blake3_of(gear_seed().push(i as u8))
}

/// Multiplier that derives the odd Gear entries from the even ones.
pub const GEAR_MUL: u64 = 0x517cc1b727220a95;

/// Entry `k` (0 ≤ k < 256) of the Gear table: even entries are read little-endian
/// from the BLAKE3 blocks, odd entries derived from the even one before.
pub open spec fn gear_entry(k: int) -> u64 {
    let i = k / 8;
    let j = (k % 8) / 2;
    let even = get64(gear_block(i), 8 * j);
    if k % 2 == 0 {
        even
    } else {
        even.wrapping_mul(GEAR_MUL).wrapping_add(i as u64)
    }
}

/// Builds the Gear hash table.
pub fn gear_table() -> (t: Vec<u64>)
    ensures
        t@.len() == 256,
        forall|k: int| 0 <= k < 256 ==> #[trigger] t@[k] == gear_entry(k),
{
    let name: [u8; 15] = [0x63u8, 0x70u8, 0x61u8, 0x63u8, 0x2du8, 0x67u8, 0x65u8, 0x61u8, 0x72u8, 0x2du8, 0x74u8, 0x61u8, 0x62u8, 0x6cu8, 0x65u8];
    assert(name@ =~= seq![0x63u8, 0x70u8, 0x61u8, 0x63u8, 0x2du8, 0x67u8, 0x65u8, 0x61u8, 0x72u8, 0x2du8, 0x74u8, 0x61u8, 0x62u8, 0x6cu8, 0x65u8]);
    let seed = blake3_hash(name.as_slice());
    let mut table: Vec<u64> = Vec::new();
    let mut i: usize = 0;
    while i < 32
        invariant
            i <= 32,
            seed@ == gear_seed(),
            table@.len() == 8 * i,
            forall|k: int| 0 <= k < 8 * i ==> #[trigger] table@[k] == gear_entry(k),
        decreases 32 - i,
    {
        let mut block_input: Vec<u8> = Vec::new();
        push_all(&mut block_input, seed.as_slice());
        block_input.push(i as u8);
        let b = blake3_hash(block_input.as_slice());
        assert(b@ == gear_block(i as int));
        let mut j: usize = 0;
        while j < 4
            invariant
                j <= 4,
                i < 32,
                b@ == gear_block(i as int),
                b@.len() == 32,
                table@.len() == 8 * i + 2 * j,
                forall|k: int| 0 <= k < 8 * i + 2 * j ==> #[trigger] table@[k] == gear_entry(k),
            decreases 4 - j,
        {
            let even = read_u64(b.as_slice(), j * 8);
            let odd = even.wrapping_mul(GEAR_MUL).wrapping_add(i as u64);
            proof {
                let k = 8 * i + 2 * j;
                assert(k / 8 == i && (k % 8) / 2 == j && k % 2 == 0);
                assert((k + 1) / 8 == i && ((k + 1) % 8) / 2 == j && (k + 1) % 2 == 1);
            }
            table.push(even);
            table.push(odd);
            j = j + 1;
        }
        i = i + 1;
    }
    table
}


/// Configuration for CDC-based dedup compression.
#[derive(Clone, Debug)]
pub struct DedupConfig {
    /// Minimum chunk size (bytes).
    pub min_chunk: usize,
    /// Target average chunk size (bytes); the Gear mask is derived from it.
    pub avg_chunk: usize,
    /// Maximum chunk size (bytes).
    pub max_chunk: usize,
}

impl Default for DedupConfig {
    fn default() -> (r: Self)
        ensures
            r.min_chunk == 4 * 1024 && r.avg_chunk == 64 * 1024 && r.max_chunk == 1024 * 1024,
    {
        DedupConfig { min_chunk: 4 * 1024, avg_chunk: 64 * 1024, max_chunk: 1024 * 1024 }
    }
}

/// ⌊log2 n⌋ for n ≥ 1, and 0 for n = 0.
pub open spec fn floor_log2(n: nat) -> nat
    decreases n,
{
    if n < 2 {
        0
    } else {
        1 + floor_log2(n / 2)
    }
}

/// The Gear mask for a target average chunk size: ⌊log2 avg⌋ low bits set.
pub open spec fn gear_mask(avg: usize) -> u64 {
    ((1u64 << floor_log2(avg as nat)) - 1) as u64
}

spec fn p2(k: nat) -> nat
    decreases k,
{
    if k == 0 {
        1
    } else {
        2 * p2((k - 1) as nat)
    }
}

proof fn lemma_floor_log2_lt(n: nat, k: nat)
    requires
        k >= 1,
        n < p2(k),
    ensures
        floor_log2(n) < k,
    decreases k,
{
    if n >= 2 && k >= 2 {
        let q = p2((k - 1) as nat);
        assert(p2(k) == 2 * q);
        assert(n / 2 < q) by (nonlinear_arith)
            requires
                n < 2 * q,
        ;
        lemma_floor_log2_lt(n / 2, (k - 1) as nat);
        assert(floor_log2(n) == 1 + floor_log2(n / 2));
    } else if n >= 2 {
        assert(p2(1) == 2 * p2(0));
        assert(false);
    } else {
        assert(floor_log2(n) == 0);
    }
}

proof fn lemma_floor_log2_bound(n: nat)
    requires
        n <= usize::MAX,
    ensures
        floor_log2(n) < 64,
{
    reveal_with_fuel(p2, 65);
    assert(p2(64) == 0x1_0000_0000_0000_0000);
    lemma_floor_log2_lt(n, 64);
}

fn mask_for(avg: usize) -> (m: u64)
    ensures
        m == gear_mask(avg),
{
    let mut v = avg;
    let mut bits: u32 = 0;
    proof {
        lemma_floor_log2_bound(avg as nat);
    }
    while v > 1
        invariant
            bits + floor_log2(v as nat) == floor_log2(avg as nat),
            floor_log2(avg as nat) < 64,
        decreases v,
    {
        v = v / 2;
        bits = bits + 1;
    }
    assert(bits < 64);
    assert((1u64 << bits) >= 1) by (bit_vector)
        requires
            bits < 64,
    ;
    (1u64 << bits) - 1
}

/// Scans for a cut point from `pos` up to `end` with rolling Gear hash `hash`:
/// the position after the first byte at which `hash & mask == 0`, or `pos`
/// when the scan reaches `end`.
pub open spec fn gear_scan(data: Seq<u8>, gt: Seq<u64>, mask: u64, pos: int, end: int, hash: u64) -> int
    decreases end - pos,
{
    if pos >= end {
        pos
    } else {
        let h = hash.wrapping_shl(1).wrapping_add(gt[data[pos] as int]);
        if h & mask == 0 {
            pos + 1
        } else {
            gear_scan(data, gt, mask, pos + 1, end, h)
        }
    }
}

/// The Gear table as a sequence.
pub open spec fn gear_table_spec() -> Seq<u64> {
    Seq::new(256, |k: int| gear_entry(k))
}

/// End of the chunk that starts at `start`.
pub open spec fn chunk_end(data: Seq<u8>, min_chunk: int, avg_chunk: usize, max_chunk: int, start: int) -> int {
    let end = if start + max_chunk < data.len() { start + max_chunk } else { data.len() as int };
    let min_end = if start + min_chunk < data.len() { start + min_chunk } else { data.len() as int };
    let p = gear_scan(data, gear_table_spec(), gear_mask(avg_chunk), min_end, end, 0);
    if p < end {
        p
    } else {
        end
    }
}

proof fn lemma_gear_scan_bounds(data: Seq<u8>, gt: Seq<u64>, mask: u64, pos: int, end: int, hash: u64)
    ensures
        pos < end ==> pos < gear_scan(data, gt, mask, pos, end, hash) <= end,
        pos >= end ==> gear_scan(data, gt, mask, pos, end, hash) == pos,
    decreases end - pos,
{
    if pos < end {
        lemma_gear_scan_bounds(data, gt, mask, pos + 1, end, hash.wrapping_shl(1).wrapping_add(gt[data[pos] as int]));
    }
}

proof fn lemma_chunk_end_advances(data: Seq<u8>, min_chunk: int, avg_chunk: usize, max_chunk: int, start: int)
    requires
        0 <= start < data.len(),
        min_chunk >= 0,
        max_chunk > 0,
    ensures
        start < chunk_end(data, min_chunk, avg_chunk, max_chunk, start) <= data.len(),
        chunk_end(data, min_chunk, avg_chunk, max_chunk, start) <= start + max_chunk,
{
    let end = if start + max_chunk < data.len() { start + max_chunk } else { data.len() as int };
    let min_end = if start + min_chunk < data.len() { start + min_chunk } else { data.len() as int };
    lemma_gear_scan_bounds(data, gear_table_spec(), gear_mask(avg_chunk), min_end, end, 0);
}

/// The chunks `(offset, length)` of `data` from `start` on.
pub open spec fn cdc_chunks(data: Seq<u8>, min_chunk: int, avg_chunk: usize, max_chunk: int, start: int) -> Seq<(usize, usize)>
    decreases data.len() - start,
{
    if start < 0 || start >= data.len() || max_chunk <= 0 || min_chunk < 0 {
        Seq::empty()
    } else {
        let ce = chunk_end(data, min_chunk, avg_chunk, max_chunk, start);
        if start < ce <= data.len() {
            seq![(start as usize, (ce - start) as usize)] + cdc_chunks(data, min_chunk, avg_chunk, max_chunk, ce)
        } else {
            Seq::empty()
        }
    }
}

fn scan_cut(data: &[u8], gt: &Vec<u64>, mask: u64, min_end: usize, end: usize) -> (pos: usize)
    requires
        gt@.len() == 256,
        end <= data.len(),
    ensures
        pos == gear_scan(data@, gt@, mask, min_end as int, end as int, 0),
{
    let mut hash: u64 = 0;
    let mut pos = min_end;
    while pos < end
        invariant
            gt@.len() == 256,
            end <= data.len(),
            min_end <= pos,
            gear_scan(data@, gt@, mask, pos as int, end as int, hash) == gear_scan(
                data@,
                gt@,
                mask,
                min_end as int,
                end as int,
                0,
            ),
        decreases end - pos,
    {
        let b = data[pos];
        hash = hash.wrapping_shl(1).wrapping_add(gt[b as usize]);
        if hash & mask == 0 {
            return pos + 1;
        }
        pos = pos + 1;
    }
    pos
}

/// Splits `data` into content-defined chunks using Gear hashing; returns
/// `(offset, length)` pairs.
pub fn cdc_split(data: &[u8], cfg: &DedupConfig) -> (r: Vec<(usize, usize)>)
    requires
        cfg.max_chunk > 0,
        data.len() == 0 || data.len() - 1 + cfg.max_chunk <= usize::MAX,
        data.len() == 0 || data.len() - 1 + cfg.min_chunk <= usize::MAX,
    ensures
        r@ == cdc_chunks(data@, cfg.min_chunk as int, cfg.avg_chunk, cfg.max_chunk as int, 0),
{
    let mut chunks: Vec<(usize, usize)> = Vec::new();
    if data.len() == 0 {
        return chunks;
    }
    let gt = gear_table();
    assert(gt@ =~= gear_table_spec());
    let mask = mask_for(cfg.avg_chunk);
    let ghost minc = cfg.min_chunk as int;
    let ghost maxc = cfg.max_chunk as int;
    let ghost avg = cfg.avg_chunk;
    let mut start: usize = 0;
    while start < data.len()
        invariant
            gt@ == gear_table_spec(),
            mask == gear_mask(avg),
            minc == cfg.min_chunk,
            maxc == cfg.max_chunk,
            avg == cfg.avg_chunk,
            cfg.max_chunk > 0,
            data.len() > 0,
            data.len() - 1 + cfg.max_chunk <= usize::MAX,
            data.len() - 1 + cfg.min_chunk <= usize::MAX,
            start <= data.len(),
            chunks@ + cdc_chunks(data@, minc, avg, maxc, start as int) == cdc_chunks(data@, minc, avg, maxc, 0),
        decreases data.len() - start,
    {
        let end = if start + cfg.max_chunk < data.len() { start + cfg.max_chunk } else { data.len() };
        let min_end = if start + cfg.min_chunk < data.len() { start + cfg.min_chunk } else { data.len() };
        let pos = scan_cut(data, &gt, mask, min_end, end);
        let chunk_end_pos = if pos < end { pos } else { end };
        proof {
            lemma_chunk_end_advances(data@, minc, avg, maxc, start as int);
            assert(chunk_end_pos == chunk_end(data@, minc, avg, maxc, start as int));
            let rest = cdc_chunks(data@, minc, avg, maxc, chunk_end_pos as int);
            assert(cdc_chunks(data@, minc, avg, maxc, start as int) == seq![(start, (chunk_end_pos - start) as usize)] + rest);
            assert(chunks@.push((start, (chunk_end_pos - start) as usize)) + rest =~= chunks@ + (seq![(start, (chunk_end_pos - start) as usize)] + rest));
        }
        chunks.push((start, chunk_end_pos - start));
        start = chunk_end_pos;
    }
    assert(cdc_chunks(data@, minc, avg, maxc, start as int) =~= Seq::<(usize, usize)>::empty());
    assert(chunks@ + Seq::<(usize, usize)>::empty() =~= chunks@);
    chunks
}


/// The chunks tile their input: they start at offset 0 (at `start` in
/// general), each has length between 1 and `max_chunk`, each begins where the
/// one before ends, and the last ends at the end of the data.
pub proof fn lemma_cdc_tiles(data: Seq<u8>, min_chunk: int, avg_chunk: usize, max_chunk: int, start: int)
    requires
        0 <= start <= data.len(),
        data.len() <= usize::MAX,
        min_chunk >= 0,
        max_chunk > 0,
    ensures
        ({
            let c = cdc_chunks(data, min_chunk, avg_chunk, max_chunk, start);
            &&& (c.len() == 0 <==> start == data.len())
            &&& c.len() > 0 ==> c[0].0 == start
            &&& c.len() > 0 ==> c.last().0 + c.last().1 == data.len()
            &&& forall|k: int| 0 <= k < c.len() ==> 1 <= #[trigger] c[k].1 <= max_chunk
            &&& forall|k: int| 0 <= k < c.len() - 1 ==> #[trigger] c[k].0 + c[k].1 == c[k + 1].0
        }),
    decreases data.len() - start,
{
    if start < data.len() {
        lemma_chunk_end_advances(data, min_chunk, avg_chunk, max_chunk, start);
        let ce = chunk_end(data, min_chunk, avg_chunk, max_chunk, start);
        lemma_cdc_tiles(data, min_chunk, avg_chunk, max_chunk, ce);
        let rest = cdc_chunks(data, min_chunk, avg_chunk, max_chunk, ce);
        let c = cdc_chunks(data, min_chunk, avg_chunk, max_chunk, start);
        assert(c == seq![(start as usize, (ce - start) as usize)] + rest);
        assert forall|k: int| 0 <= k < c.len() - 1 implies #[trigger] c[k].0 + c[k].1 == c[k + 1].0 by {
            if k > 0 {
                assert(c[k] == rest[k - 1]);
                assert(c[k + 1] == rest[k]);
            }
        }
        assert forall|k: int| 0 <= k < c.len() implies 1 <= #[trigger] c[k].1 <= max_chunk by {
            if k > 0 {
                assert(c[k] == rest[k - 1]);
            }
        }
    }
}


/// Index of the first chunk of `u` whose fingerprint is `fp`.
pub open spec fn find_fp(u: Seq<Seq<u8>>, fp: Seq<u8>) -> Option<int>
    decreases u.len(),
{
    if u.len() == 0 {
        None
    } else {
        match find_fp(u.drop_last(), fp) {
            Some(j) => Some(j),
            None => if blake3_of(u.last()) == fp {
                Some(u.len() - 1)
            } else {
                None
            },
        }
    }
}

proof fn lemma_find_fp(u: Seq<Seq<u8>>, fp: Seq<u8>)
    ensures
        find_fp(u, fp) matches Some(j) ==> 0 <= j < u.len() && blake3_of(u[j]) == fp && forall|i: int|
            0 <= i < j ==> blake3_of(#[trigger] u[i]) != fp,
        find_fp(u, fp) is None ==> forall|i: int| 0 <= i < u.len() ==> blake3_of(#[trigger] u[i]) != fp,
    decreases u.len(),
{
    if u.len() > 0 {
        lemma_find_fp(u.drop_last(), fp);
        assert forall|i: int| 0 <= i < u.len() - 1 implies #[trigger] u[i] == u.drop_last()[i] by {}
    }
}

/// Dedup index: the distinct chunks seen, in order of first appearance, with
/// their BLAKE3 fingerprints.
pub struct DedupIndex {
    fingerprints: Vec<ChunkFingerprint>,
    unique_chunks: Vec<Vec<u8>>,
}

impl View for DedupIndex {
    type V = Seq<Seq<u8>>;

    closed spec fn view(&self) -> Seq<Seq<u8>> {
        Seq::new(self.unique_chunks@.len(), |i: int| self.unique_chunks@[i]@)
    }
}

impl DedupIndex {
    /// Each stored fingerprint is the fingerprint of the chunk beside it.
    pub closed spec fn wf(&self) -> bool {
        &&& self.fingerprints@.len() == self.unique_chunks@.len()
        &&& forall|i: int|
            0 <= i < self.fingerprints@.len() ==> #[trigger] self.fingerprints@[i]@ == blake3_of(
                self.unique_chunks@[i]@,
            )
    }

    /// Inserts a chunk; returns `(unique_id, is_new)`.
    pub fn insert(&mut self, data: &[u8]) -> (r: (u32, bool))
        requires
            old(self).wf(),
        ensures
            final(self).wf(),
            match find_fp(old(self)@, blake3_of(data@)) {
                Some(j) => r == (j as u32, false) && final(self)@ == old(self)@,
                None => r == (old(self)@.len() as u32, true) && final(self)@ == old(self)@.push(data@),
            },
    {
        let fp = fingerprint(data);
        proof {
            lemma_find_fp(self@, blake3_of(data@));
        }
        let n = self.fingerprints.len();
        let mut i: usize = 0;
        while i < n
            invariant
                self.wf(),
                n == self.fingerprints@.len(),
                self@ == old(self)@,
                i <= n,
                fp@ == blake3_of(data@),
                forall|k: int| 0 <= k < i ==> blake3_of(#[trigger] self@[k]) != fp@,
            decreases n - i,
        {
            if fp_eq(&self.fingerprints[i], &fp) {
                proof {
                    assert(self@[i as int] == self.unique_chunks@[i as int]@);
                    lemma_find_fp(self@, blake3_of(data@));
                    match find_fp(self@, blake3_of(data@)) {
                        Some(j) => {
                            assert(j == i);
                        },
                        None => {
                            assert(blake3_of(self@[i as int]) != fp@);
                        },
                    }
                }
                return (i as u32, false);
            }
            proof {
                assert(self@[i as int] == self.unique_chunks@[i as int]@);
            }
            i = i + 1;
        }
        proof {
            if let Some(j) = find_fp(self@, blake3_of(data@)) {
                assert(blake3_of(self@[j]) != fp@);
            }
        }
        let id = n as u32;
        let ghost old_view = self@;
        self.fingerprints.push(fp);
        self.unique_chunks.push(slice_to_vec(data, 0, data.len()));
        assert(data@.subrange(0, data@.len() as int) =~= data@);
        assert(self@ =~= old_view.push(data@));
        (id, true)
    }

    /// Number of unique chunks stored.
    pub fn unique_count(&self) -> (r: usize)
        ensures
            r == self@.len(),
    {
        self.unique_chunks.len()
    }

    /// The unique chunk with the given id, if any.
    pub fn get(&self, id: u32) -> (r: Option<&[u8]>)
        ensures
            r is Some <==> id < self@.len(),
            r matches Some(c) ==> c@ == self@[id as int],
    {
        let i = id as usize;
        if i < self.unique_chunks.len() {
            Some(self.unique_chunks[i].as_slice())
        } else {
            None
        }
    }
}

impl Default for DedupIndex {
    fn default() -> (r: Self)
        ensures
            r.wf(),
            r@ == Seq::<Seq<u8>>::empty(),
    {
        let r = DedupIndex { fingerprints: Vec::new(), unique_chunks: Vec::new() };
        assert(r@ =~= Seq::<Seq<u8>>::empty());
        r
    }
}

fn fp_eq(a: &ChunkFingerprint, b: &ChunkFingerprint) -> (r: bool)
    ensures
        r == (a@ == b@),
{
    let mut i: usize = 0;
    while i < 32
        invariant
            i <= 32,
            a@.len() == 32,
            b@.len() == 32,
            forall|k: int| 0 <= k < i ==> a@[k] == b@[k],
        decreases 32 - i,
    {
        if a[i] != b[i] {
            return false;
        }
        i = i + 1;
    }
    assert(a@ =~= b@);
    true
}


/// The bytes of chunk `c` of `data`.
pub open spec fn chunk_bytes(data: Seq<u8>, c: (usize, usize)) -> Seq<u8> {
    data.subrange(c.0 as int, c.0 + c.1)
}

/// Dedup index contents and chunk ids after the first `k` chunks.
pub open spec fn dedup_state(data: Seq<u8>, chunks: Seq<(usize, usize)>, k: int) -> (Seq<Seq<u8>>, Seq<u32>)
    decreases k,
{
    if k <= 0 {
        (Seq::empty(), Seq::empty())
    } else {
        let st = dedup_state(data, chunks, k - 1);
        let ch = chunk_bytes(data, chunks[k - 1]);
        match find_fp(st.0, blake3_of(ch)) {
            Some(j) => (st.0, st.1.push(j as u32)),
            None => (st.0.push(ch), st.1.push(st.0.len() as u32)),
        }
    }
}

/// Splits `data` into CDC chunks and indexes them: returns the dedup index of
/// distinct chunks and, for every chunk in order, the id of its unique chunk.
pub fn dedup_chunks(data: &[u8], cfg: &DedupConfig) -> (r: (DedupIndex, Vec<u32>))
    requires
        cfg.max_chunk > 0,
        data.len() == 0 || data.len() - 1 + cfg.max_chunk <= usize::MAX,
        data.len() == 0 || data.len() - 1 + cfg.min_chunk <= usize::MAX,
    ensures
        r.0.wf(),
        (r.0@, r.1@) == dedup_state(
            data@,
            cdc_chunks(data@, cfg.min_chunk as int, cfg.avg_chunk, cfg.max_chunk as int, 0),
            cdc_chunks(data@, cfg.min_chunk as int, cfg.avg_chunk, cfg.max_chunk as int, 0).len() as int,
        ),
{
    let chunks = cdc_split(data, cfg);
    let ghost cs = chunks@;
    proof {
        lemma_cdc_tiles(data@, cfg.min_chunk as int, cfg.avg_chunk, cfg.max_chunk as int, 0);
        lemma_chunks_in_bounds(data@, cs);
    }
    let mut index = DedupIndex::default();
    let mut ids: Vec<u32> = Vec::new();
    let mut k: usize = 0;
    while k < chunks.len()
        invariant
            cs == chunks@,
            k <= chunks.len(),
            forall|i: int| 0 <= i < cs.len() ==> #[trigger] cs[i].0 + cs[i].1 <= data@.len(),
            index.wf(),
            (index@, ids@) == dedup_state(data@, cs, k as int),
        decreases chunks.len() - k,
    {
        let (offset, len) = chunks[k];
        assert((offset, len) == cs[k as int]);
        assert(cs[k as int].0 + cs[k as int].1 <= data@.len());
        assert(offset + len <= data.len());
        let chunk = slice_to_vec(data, offset, offset + len);
        let (id, _is_new) = index.insert(chunk.as_slice());
        ids.push(id);
        k = k + 1;
    }
    (index, ids)
}

proof fn lemma_chunks_in_bounds(data: Seq<u8>, cs: Seq<(usize, usize)>)
    requires
        cs.len() > 0 ==> cs[0].0 == 0,
        cs.len() > 0 ==> cs.last().0 + cs.last().1 == data.len(),
        forall|k: int| 0 <= k < cs.len() - 1 ==> #[trigger] cs[k].0 + cs[k].1 == cs[k + 1].0,
    ensures
        forall|i: int| 0 <= i < cs.len() ==> #[trigger] cs[i].0 + cs[i].1 <= data.len(),
{
    assert forall|i: int| 0 <= i < cs.len() implies #[trigger] cs[i].0 + cs[i].1 <= data.len() by {
        lemma_chunk_end_before_last(cs, i);
    }
}

proof fn lemma_chunk_end_before_last(cs: Seq<(usize, usize)>, i: int)
    requires
        0 <= i < cs.len(),
        forall|k: int| 0 <= k < cs.len() - 1 ==> #[trigger] cs[k].0 + cs[k].1 == cs[k + 1].0,
    ensures
        cs[i].0 + cs[i].1 <= cs.last().0 + cs.last().1,
    decreases cs.len() - i,
{
    if i < cs.len() - 1 {
        lemma_chunk_end_before_last(cs, i + 1);
        assert(cs[i].0 + cs[i].1 == cs[i + 1].0);
    }
}

/// Concatenation of the unique chunks that `ids` name, in order.
pub open spec fn assemble_spec(u: Seq<Seq<u8>>, ids: Seq<u32>) -> Seq<u8>
    decreases ids.len(),
{
    if ids.len() == 0 {
        Seq::empty()
    } else {
        assemble_spec(u, ids.drop_last()) + u[ids.last() as int]
    }
}

/// Concatenation of the chunks of `data`, in order.
pub open spec fn concat_chunks(data: Seq<u8>, cs: Seq<(usize, usize)>) -> Seq<u8>
    decreases cs.len(),
{
    if cs.len() == 0 {
        Seq::empty()
    } else {
        concat_chunks(data, cs.drop_last()) + chunk_bytes(data, cs.last())
    }
}

/// No two different chunks of `data` share a BLAKE3 fingerprint.
pub open spec fn fingerprints_distinct(data: Seq<u8>, cs: Seq<(usize, usize)>) -> bool {
    forall|a: int, b: int|
        0 <= a < cs.len() && 0 <= b < cs.len() && #[trigger] blake3_of(chunk_bytes(data, cs[a]))
            == #[trigger] blake3_of(chunk_bytes(data, cs[b])) ==> chunk_bytes(data, cs[a])
            == chunk_bytes(data, cs[b])
}

proof fn lemma_dedup_state(data: Seq<u8>, cs: Seq<(usize, usize)>, k: int)
    requires
        0 <= k <= cs.len(),
        cs.len() <= u32::MAX,
        fingerprints_distinct(data, cs),
    ensures
        ({
            let st = dedup_state(data, cs, k);
            &&& st.0.len() <= k
            &&& st.1.len() == k
            &&& forall|j: int| 0 <= j < st.0.len() ==> exists|a: int| 0 <= a < k && #[trigger] st.0[j] == chunk_bytes(data, cs[a])
            &&& forall|i: int| 0 <= i < k ==> #[trigger] st.1[i] < st.0.len() && st.0[st.1[i] as int] == chunk_bytes(data, cs[i])
            &&& assemble_spec(st.0, st.1) == concat_chunks(data, cs.subrange(0, k))
        }),
    decreases k,
{
    if k > 0 {
        lemma_dedup_state(data, cs, k - 1);
        let st = dedup_state(data, cs, k - 1);
        let ch = chunk_bytes(data, cs[k - 1]);
        lemma_find_fp(st.0, blake3_of(ch));
        let st2 = dedup_state(data, cs, k);
        assert(cs.subrange(0, k).drop_last() =~= cs.subrange(0, k - 1));
        match find_fp(st.0, blake3_of(ch)) {
            Some(j) => {
                let a = choose|a: int| 0 <= a < k - 1 && st.0[j] == chunk_bytes(data, cs[a]);
                assert(blake3_of(chunk_bytes(data, cs[a])) == blake3_of(chunk_bytes(data, cs[k - 1])));
                assert(st.0[j] == ch);
                assert(st2.1.drop_last() =~= st.1);
                assert forall|i: int| 0 <= i < k implies #[trigger] st2.1[i] < st2.0.len() && st2.0[st2.1[i] as int] == chunk_bytes(data, cs[i]) by {
                    if i < k - 1 {
                        assert(st2.1[i] == st.1[i]);
                    }
                }
            },
            None => {
                assert(st2.1.drop_last() =~= st.1);
                assert forall|j: int| 0 <= j < st2.0.len() implies exists|a: int| 0 <= a < k && #[trigger] st2.0[j] == chunk_bytes(data, cs[a]) by {
                    if j < st.0.len() {
                        let a = choose|a: int| 0 <= a < k - 1 && st.0[j] == chunk_bytes(data, cs[a]);
                        assert(st2.0[j] == chunk_bytes(data, cs[a]));
                    } else {
                        assert(st2.0[j] == chunk_bytes(data, cs[k - 1]));
                    }
                }
                assert forall|i: int| 0 <= i < k implies #[trigger] st2.1[i] < st2.0.len() && st2.0[st2.1[i] as int] == chunk_bytes(data, cs[i]) by {
                    if i < k - 1 {
                        assert(st2.1[i] == st.1[i]);
                        assert(st2.0[st.1[i] as int] == st.0[st.1[i] as int]);
                    }
                }
                lemma_assemble_prefix_stable(st.0, ch, st.1);
            },
        }
    } else {
        assert(cs.subrange(0, 0) =~= Seq::<(usize, usize)>::empty());
    }
}

proof fn lemma_assemble_prefix_stable(u: Seq<Seq<u8>>, x: Seq<u8>, ids: Seq<u32>)
    requires
        forall|i: int| 0 <= i < ids.len() ==> #[trigger] ids[i] < u.len(),
    ensures
        assemble_spec(u.push(x), ids) == assemble_spec(u, ids),
    decreases ids.len(),
{
    if ids.len() > 0 {
        lemma_assemble_prefix_stable(u, x, ids.drop_last());
        assert(ids.last() == ids[ids.len() - 1]);
    }
}

proof fn lemma_concat_chunks_tiles(data: Seq<u8>, cs: Seq<(usize, usize)>, k: int)
    requires
        0 <= k <= cs.len(),
        cs.len() > 0 ==> cs[0].0 == 0,
        forall|i: int| 0 <= i < cs.len() - 1 ==> #[trigger] cs[i].0 + cs[i].1 == cs[i + 1].0,
        forall|i: int| 0 <= i < cs.len() ==> #[trigger] cs[i].0 + cs[i].1 <= data.len(),
    ensures
        k > 0 ==> concat_chunks(data, cs.subrange(0, k)) == data.subrange(0, cs[k - 1].0 + cs[k - 1].1),
    decreases k,
{
    if k > 0 {
        lemma_concat_chunks_tiles(data, cs, k - 1);
        assert(cs.subrange(0, k).drop_last() =~= cs.subrange(0, k - 1));
        assert(cs.subrange(0, k).last() == cs[k - 1]);
        assert(concat_chunks(data, cs.subrange(0, k)) == concat_chunks(data, cs.subrange(0, k - 1))
            + chunk_bytes(data, cs[k - 1]));
        if k > 1 {
            assert(cs[k - 2].0 + cs[k - 2].1 == cs[k - 1].0);
            assert(data.subrange(0, cs[k - 1].0 + cs[k - 1].1) =~= data.subrange(0, cs[k - 1].0 as int)
                + chunk_bytes(data, cs[k - 1]));
        } else {
            assert(cs.subrange(0, 0) =~= Seq::<(usize, usize)>::empty());
            assert(data.subrange(0, cs[0].0 + cs[0].1) =~= Seq::<u8>::empty() + chunk_bytes(data, cs[0]));
        }
    }
}

/// Dedup loses nothing: when no two different chunks share a fingerprint,
/// every chunk id names a stored chunk equal to that chunk, and emitting the
/// named unique chunks in order gives back the input.
pub proof fn lemma_dedup_reconstructs(data: Seq<u8>, min_chunk: int, avg_chunk: usize, max_chunk: int)
    requires
        data.len() <= usize::MAX,
        min_chunk >= 0,
        max_chunk > 0,
        cdc_chunks(data, min_chunk, avg_chunk, max_chunk, 0).len() <= u32::MAX,
        fingerprints_distinct(data, cdc_chunks(data, min_chunk, avg_chunk, max_chunk, 0)),
    ensures
        ({
            let cs = cdc_chunks(data, min_chunk, avg_chunk, max_chunk, 0);
            let st = dedup_state(data, cs, cs.len() as int);
            &&& forall|i: int| 0 <= i < st.1.len() ==> #[trigger] st.1[i] < st.0.len()
            &&& assemble_spec(st.0, st.1) == data
        }),
{
    let cs = cdc_chunks(data, min_chunk, avg_chunk, max_chunk, 0);
    lemma_cdc_tiles(data, min_chunk, avg_chunk, max_chunk, 0);
    lemma_chunks_in_bounds(data, cs);
    lemma_dedup_state(data, cs, cs.len() as int);
    assert(cs.subrange(0, cs.len() as int) =~= cs);
    if cs.len() > 0 {
        lemma_concat_chunks_tiles(data, cs, cs.len() as int);
        assert(data.subrange(0, data.len() as int) =~= data);
    } else {
        assert(data =~= Seq::<u8>::empty());
    }
}


/// Size of the CPDD header.
pub const DEDUP_HEADER_SIZE: usize = 21;

/// The CPDD frame holding `chunks` (the stored unique chunks), the unique
/// index of every chunk, and the original size.
pub open spec fn dedup_frame_bytes(chunks: Seq<Seq<u8>>, ids: Seq<u32>, orig: u64) -> Seq<u8> {
    seq![0x44u8, 0x44u8, 1u8] + le16(0) + le32(chunks.len() as u32) + le32(ids.len() as u32) + le64(
        orig,
    ) + lp_bytes(chunks) + u32s_bytes(ids)
}

/// What reading a CPDD frame yields: stored chunks, chunk index and original
/// size; `None` for a wrong magic or version or a truncated frame.
pub open spec fn parse_dedup(d: Seq<u8>) -> Option<(Seq<Seq<u8>>, Seq<u32>, u64)> {
    if d.len() < 21 || d[0] != 0x44 || d[1] != 0x44 || d[2] != 1 {
        None
    } else {
        let nu = get32(d, 5) as int;
        let nt = get32(d, 9) as int;
        match parse_lp(d, 21, nu) {
            None => None,
            Some(st) => if st.1 + 4 * nt > d.len() {
                None
            } else {
                Some((st.0, Seq::new(nt as nat, |i: int| get32(d, st.1 + 4 * i)), get64(d, 13)))
            },
        }
    }
}

/// A parsed CPDD frame.
pub struct DedupFrame {
    /// The stored unique chunks (compressed), in id order.
    pub chunks: Vec<Vec<u8>>,
    /// For every chunk of the input, the id of its unique chunk.
    pub chunk_ids: Vec<u32>,
    /// Size of the original input.
    pub original_size: u64,
}

/// Builds a CPDD frame from the stored chunks, the chunk index and the
/// original size.
pub fn build_dedup_frame(chunks: &[Vec<u8>], chunk_ids: &[u32], original_size: usize) -> (r: Vec<u8>)
    ensures
        r@ == dedup_frame_bytes(blobs_view(chunks@), chunk_ids@, original_size as u64),
{
    let mut frame: Vec<u8> = Vec::new();
    frame.push(0x44u8);
    frame.push(0x44u8);
    frame.push(1u8);
    push_u16(&mut frame, 0u16);
    push_u32(&mut frame, chunks.len() as u32);
    push_u32(&mut frame, chunk_ids.len() as u32);
    push_u64(&mut frame, original_size as u64);
    write_lp(&mut frame, chunks);
    write_u32s(&mut frame, chunk_ids);
    assert(frame@ =~= dedup_frame_bytes(blobs_view(chunks@), chunk_ids@, original_size as u64));
    frame
}

/// Parses a CPDD frame into its stored chunks, chunk index and original size.
pub fn parse_dedup_frame(data: &[u8]) -> (r: Result<DedupFrame, CpacError>)
    ensures
        r is Ok <==> parse_dedup(data@) is Some,
        r matches Ok(f) ==> parse_dedup(data@) == Some(
            (blobs_view(f.chunks@), f.chunk_ids@, f.original_size),
        ),
        r matches Err(e) ==> e is InvalidFrame,
{
    if data.len() < DEDUP_HEADER_SIZE || data[0] != 0x44u8 || data[1] != 0x44u8 {
        return Err(CpacError::InvalidFrame("not a CPDD frame".to_string()));
    }
    if data[2] != 1u8 {
        return Err(CpacError::InvalidFrame("unsupported CPDD version".to_string()));
    }
    let num_unique = read_u32(data, 5) as usize;
    let num_total = read_u32(data, 9) as usize;
    let original_size = read_u64(data, 13);
    let (chunks, offset) = match read_lp(data, 21, num_unique) {
        Some(res) => res,
        None => {
            return Err(CpacError::InvalidFrame("truncated chunk data".to_string()));
        },
    };
    if (data.len() - offset) / 4 < num_total {
        return Err(CpacError::InvalidFrame("truncated chunk index".to_string()));
    }
    let chunk_ids = read_u32s(data, offset, num_total);
    Ok(DedupFrame { chunks, chunk_ids, original_size })
}

/// Reassembles the original bytes from the (decompressed) unique chunks and
/// the chunk index, checking the result against the recorded size.
pub fn assemble_dedup(unique: &[Vec<u8>], chunk_ids: &[u32], original_size: u64) -> (r: Result<Vec<u8>, CpacError>)
    ensures
        (forall|i: int| 0 <= i < chunk_ids@.len() ==> #[trigger] chunk_ids@[i] < unique@.len()) ==> {
            let out = assemble_spec(blobs_view(unique@), chunk_ids@);
            &&& (out.len() == original_size ==> (r matches Ok(v) && v@ == out))
            &&& (out.len() != original_size ==> (r matches Err(e) && e is DecompressFailed))
        },
        !(forall|i: int| 0 <= i < chunk_ids@.len() ==> #[trigger] chunk_ids@[i] < unique@.len()) ==> (r matches Err(e) && e is InvalidFrame),
{
    let ghost u = blobs_view(unique@);
    let mut result: Vec<u8> = Vec::new();
    let mut i: usize = 0;
    while i < chunk_ids.len()
        invariant
            i <= chunk_ids.len(),
            u == blobs_view(unique@),
            forall|k: int| 0 <= k < i ==> #[trigger] chunk_ids@[k] < unique@.len(),
            result@ == assemble_spec(u, chunk_ids@.subrange(0, i as int)),
        decreases chunk_ids.len() - i,
    {
        let id = chunk_ids[i] as usize;
        if id >= unique.len() {
            return Err(CpacError::InvalidFrame("chunk index out of range".to_string()));
        }
        push_all(&mut result, unique[id].as_slice());
        proof {
            assert(chunk_ids@.subrange(0, i + 1).drop_last() =~= chunk_ids@.subrange(0, i as int));
        }
        i = i + 1;
    }
    assert(chunk_ids@.subrange(0, chunk_ids@.len() as int) =~= chunk_ids@);
    if result.len() as u64 != original_size {
        return Err(CpacError::DecompressFailed("dedup size mismatch".to_string()));
    }
    Ok(result)
}

/// Whether `data` starts like a CPDD frame.
pub fn is_dedup_frame(data: &[u8]) -> (r: bool)
    ensures
        r == (data@.len() >= 21 && data@[0] == 0x44 && data@[1] == 0x44 && data@[2] == 1),
{
    data.len() >= DEDUP_HEADER_SIZE && data[0] == 0x44u8 && data[1] == 0x44u8 && data[2] == 1u8
}

/// Reading a CPDD frame back gives the stored chunks, chunk index and original
/// size it was built from, when the counts and chunk lengths fit 32 bits.
pub proof fn lemma_dedup_frame_roundtrip(chunks: Seq<Seq<u8>>, ids: Seq<u32>, orig: u64)
    requires
        chunks.len() <= u32::MAX,
        ids.len() <= u32::MAX,
        forall|i: int| 0 <= i < chunks.len() ==> #[trigger] chunks[i].len() <= u32::MAX,
    ensures
        parse_dedup(dedup_frame_bytes(chunks, ids, orig)) == Some((chunks, ids, orig)),
{
    let head = seq![0x44u8, 0x44u8, 1u8] + le16(0) + le32(chunks.len() as u32) + le32(ids.len() as u32)
        + le64(orig);
    let d = dedup_frame_bytes(chunks, ids, orig);
    assert(head.len() == 21);
    assert(d =~= head + lp_bytes(chunks) + u32s_bytes(ids));
    assert(d.subrange(5, 9) =~= le32(chunks.len() as u32));
    assert(d.subrange(9, 13) =~= le32(ids.len() as u32));
    assert(d.subrange(13, 21) =~= le64(orig));
    lemma_le32_roundtrip(chunks.len() as u32, d, 5);
    lemma_le32_roundtrip(ids.len() as u32, d, 9);
    lemma_le64_roundtrip(orig, d, 13);
    lemma_lp_roundtrip(head, chunks, u32s_bytes(ids));
    let o = (head.len() + lp_bytes(chunks).len()) as int;
    lemma_u32s_roundtrip(head + lp_bytes(chunks), ids, Seq::<u8>::empty());
    assert(head + lp_bytes(chunks) + u32s_bytes(ids) + Seq::<u8>::empty() =~= d);
}

} // verus!
