//! Zstd dictionaries: training from samples and the `CPDI` storage format:
//!
//! `"CPDI" | version (1) | dict id (8 LE) | size (4 LE) | samples (4 LE) |
//! corpus size (8 LE) | created at (8 LE) | dictionary bytes`

use vstd::prelude::*;
use crate::bytes::{le32, le64, get32, get64, push_u32, push_u64, push_all, read_u32, read_u64, slice_to_vec, lemma_le32_roundtrip, lemma_le64_roundtrip};
use crate::error::CpacError;
use crate::framing::blobs_view;

verus! {

/// Default maximum dictionary size: 128 KiB.
pub const DEFAULT_MAX_DICT_SIZE: usize = 131072;

/// The dictionary zstd trains from `samples` within `max_size` bytes, or `None`
/// when training fails.
pub uninterp spec fn zstd_trained_dict(samples: Seq<Seq<u8>>, max_size: usize) -> Option<Seq<u8>>;

/// The XXH64 hash of `data` with `seed`.
pub uninterp spec fn xxh64_of(data: Seq<u8>, seed: u64) -> u64;

/// Trains a zstd dictionary.
///
/// Calls `zstd::dict::from_samples`, which concatenates the samples and runs
/// `ZDICT_trainFromBuffer`; the result is named by `zstd_trained_dict`. It
/// reserves `max_size` bytes first, which panics above `isize::MAX`.
#[verifier::external_body]
fn zstd_train(samples: &[Vec<u8>], max_size: usize) -> (r: Option<Vec<u8>>)
    requires
        max_size <= isize::MAX,
    ensures
        r is Some <==> zstd_trained_dict(blobs_view(samples@), max_size) is Some,
        r matches Some(d) ==> zstd_trained_dict(blobs_view(samples@), max_size) == Some(d@),
{
    match zstd::dict::from_samples(samples, max_size) {
        Ok(d) => Some(d),
        Err(_) => None,
    }
}

/// XXH64 of a byte slice.
///
/// Calls `xxhash_rust::xxh64::xxh64`; the hash is named by `xxh64_of`.
#[verifier::external_body]
fn xxh64(data: &[u8], seed: u64) -> (r: u64)
    ensures
        r == xxh64_of(data@, seed),
{
    xxhash_rust::xxh64::xxh64(data, seed)
}

/// Seconds since the Unix epoch.
///
/// Reads `SystemTime::now()`; nothing is stated of the value.
#[verifier::external_body]
fn now_secs() -> u64 {
    match std::time::SystemTime::now().duration_since(std::time::UNIX_EPOCH) {
        Ok(d) => d.as_secs(),
        Err(_) => 0,
    }
}

/// Dictionary metadata.
#[derive(Debug, Clone)]
pub struct DictionaryMetadata {
    /// Dictionary ID (XXH64 of the dictionary bytes).
    pub dict_id: u64,
    /// Dictionary size in bytes.
    pub size: usize,
    /// Number of samples used for training.
    pub samples: usize,
    /// Total size of the training corpus.
    pub corpus_size: usize,
    /// Creation time (Unix epoch seconds).
    pub created_at: u64,
}

/// A dictionary with its metadata.
#[derive(Debug, Clone)]
pub struct CpacDictionary {
    /// Dictionary metadata.
    pub metadata: DictionaryMetadata,
    /// Raw dictionary bytes (zstd format).
    pub data: Vec<u8>,
}

/// The `CPDI` magic bytes.
pub open spec fn cpdi_magic() -> Seq<u8> {
    seq![0x43u8, 0x50u8, 0x44u8, 0x49u8]
}

/// Total length of a list of samples.
pub open spec fn samples_total(s: Seq<Seq<u8>>) -> int
    decreases s.len(),
{
    if s.len() == 0 {
        0
    } else {
        samples_total(s.drop_last()) + s.last().len()
    }
}

/// The serialized form of a dictionary (sizes truncated to their field widths).
pub open spec fn dict_bytes(m: DictionaryMetadata, data: Seq<u8>) -> Seq<u8> {
    cpdi_magic() + seq![1u8] + le64(m.dict_id) + le32(m.size as u32) + le32(m.samples as u32)
        + le64(m.corpus_size as u64) + le64(m.created_at) + data
}

/// The metadata and dictionary bytes stored in `b`, or `None` when it is short,
/// has another magic or version, or its size field disagrees with its length.
pub open spec fn parse_dict(b: Seq<u8>) -> Option<(DictionaryMetadata, Seq<u8>)> {
    if b.len() < 37 || b.subrange(0, 4) != cpdi_magic() || b[4] != 1 {
        None
    } else {
        let size = get32(b, 13) as usize;
        let data = b.subrange(37, b.len() as int);
        if data.len() != size {
            None
        } else {
            Some((DictionaryMetadata {
                dict_id: get64(b, 5),
                size,
                samples: get32(b, 17) as usize,
                corpus_size: get64(b, 21) as usize,
                created_at: get64(b, 29),
            }, data))
        }
    }
}

impl CpacDictionary {
    /// Trains a dictionary from samples (each sample a file's content).
    ///
    /// Fails when there are no samples or zstd refuses them.
    pub fn train(samples: &[Vec<u8>], max_size: usize) -> (r: Result<CpacDictionary, CpacError>)
        requires
            samples_total(blobs_view(samples@)) <= usize::MAX,
            max_size <= isize::MAX,
        ensures
            r is Ok <==> samples@.len() > 0 && zstd_trained_dict(blobs_view(samples@), max_size) is Some,
            r matches Err(e) ==> e is Other,
            r matches Ok(d) ==> {
                &&& zstd_trained_dict(blobs_view(samples@), max_size) == Some(d.data@)
                &&& d.metadata.dict_id == xxh64_of(d.data@, 0)
                &&& d.metadata.size == d.data@.len()
                &&& d.metadata.samples == samples@.len()
                &&& d.metadata.corpus_size == samples_total(blobs_view(samples@))
            },
    {
        if samples.len() == 0 {
            return Err(CpacError::Other("no samples provided for training".to_string()));
        }
        let ghost bs = blobs_view(samples@);
        let mut corpus_size: usize = 0;
        let mut i: usize = 0;
        while i < samples.len()
            invariant
                i <= samples.len(),
                bs == blobs_view(samples@),
                samples_total(bs) <= usize::MAX,
                corpus_size == samples_total(bs.subrange(0, i as int)),
            decreases samples.len() - i,
        {
            proof {
                lemma_samples_total_prefix(bs, i + 1);
                assert(bs.subrange(0, i + 1).drop_last() =~= bs.subrange(0, i as int));
            }
            corpus_size = corpus_size + samples[i].len();
            i = i + 1;
        }
        assert(bs.subrange(0, samples@.len() as int) =~= bs);
        let dict_data = match zstd_train(samples, max_size) {
            Some(d) => d,
            None => return Err(CpacError::Other("dictionary training failed".to_string())),
        };
        let dict_id = xxh64(dict_data.as_slice(), 0);
        let metadata = DictionaryMetadata {
            dict_id,
            size: dict_data.len(),
            samples: samples.len(),
            corpus_size,
            created_at: now_secs(),
        };
        Ok(CpacDictionary { metadata, data: dict_data })
    }

    /// Serializes the dictionary to the `CPDI` format.
    pub fn to_bytes(&self) -> (r: Vec<u8>)
        ensures
            r@ == dict_bytes(self.metadata, self.data@),
    {
        let mut out: Vec<u8> = Vec::new();
        out.push(0x43u8);
        out.push(0x50u8);
        out.push(0x44u8);
        out.push(0x49u8);
        out.push(1u8);
        push_u64(&mut out, self.metadata.dict_id);
        push_u32(&mut out, self.metadata.size as u32);
        push_u32(&mut out, self.metadata.samples as u32);
        push_u64(&mut out, self.metadata.corpus_size as u64);
        push_u64(&mut out, self.metadata.created_at);
        push_all(&mut out, self.data.as_slice());
        assert(out@ =~= dict_bytes(self.metadata, self.data@));
        out
    }

    /// Deserializes a dictionary from the `CPDI` format.
    pub fn from_bytes(bytes: &[u8]) -> (r: Result<CpacDictionary, CpacError>)
        ensures
            r is Ok <==> parse_dict(bytes@) is Some,
            r matches Ok(d) ==> parse_dict(bytes@) == Some((d.metadata, d.data@)),
            r matches Err(e) ==> e is InvalidFrame,
    {
        let b = bytes;
        if b.len() < 37 {
            return Err(CpacError::InvalidFrame("dictionary too short".to_string()));
        }
        if !(b[0] == 0x43u8 && b[1] == 0x50u8 && b[2] == 0x44u8 && b[3] == 0x49u8) {
            proof {
                if b@.subrange(0, 4) == cpdi_magic() {
                    assert(b@[0] == b@.subrange(0, 4)[0]);
                    assert(b@[1] == b@.subrange(0, 4)[1]);
                    assert(b@[2] == b@.subrange(0, 4)[2]);
                    assert(b@[3] == b@.subrange(0, 4)[3]);
                }
            }
            return Err(CpacError::InvalidFrame("invalid dictionary magic".to_string()));
        }
        assert(b@.subrange(0, 4) =~= cpdi_magic());
        if b[4] != 1 {
            return Err(CpacError::InvalidFrame("unsupported dictionary version".to_string()));
        }
        let dict_id = read_u64(b, 5);
        let size = read_u32(b, 13) as usize;
        let samples = read_u32(b, 17) as usize;
        let corpus_size = read_u64(b, 21) as usize;
        let created_at = read_u64(b, 29);
        let data = slice_to_vec(b, 37, b.len());
        if data.len() != size {
            return Err(CpacError::InvalidFrame("dictionary size mismatch".to_string()));
        }
        Ok(CpacDictionary {
            metadata: DictionaryMetadata { dict_id, size, samples, corpus_size, created_at },
            data,
        })
    }
}

proof fn lemma_samples_total_prefix(s: Seq<Seq<u8>>, i: int)
    requires
        0 <= i <= s.len(),
    ensures
        samples_total(s.subrange(0, i)) <= samples_total(s),
    decreases s.len() - i,
{
    if i < s.len() {
        lemma_samples_total_prefix(s, i + 1);
        assert(s.subrange(0, i + 1).drop_last() =~= s.subrange(0, i));
    } else {
        assert(s.subrange(0, i) =~= s);
    }
}

/// A serialized dictionary deserializes to the same metadata and bytes when its
/// size field is the length of its bytes and its sizes fit their fields.
pub proof fn lemma_dict_roundtrip(m: DictionaryMetadata, data: Seq<u8>)
    requires
        m.size == data.len(),
        m.size <= u32::MAX,
        m.samples <= u32::MAX,
    ensures
        parse_dict(dict_bytes(m, data)) == Some((m, data)),
{
    let b = dict_bytes(m, data);
    assert(b.subrange(0, 4) =~= cpdi_magic());
    assert(b.subrange(5, 13) =~= le64(m.dict_id));
    lemma_le64_roundtrip(m.dict_id, b, 5);
    assert(b.subrange(13, 17) =~= le32(m.size as u32));
    lemma_le32_roundtrip(m.size as u32, b, 13);
    assert(b.subrange(17, 21) =~= le32(m.samples as u32));
    lemma_le32_roundtrip(m.samples as u32, b, 17);
    assert(b.subrange(21, 29) =~= le64(m.corpus_size as u64));
    lemma_le64_roundtrip(m.corpus_size as u64, b, 21);
    assert(b.subrange(29, 37) =~= le64(m.created_at));
    lemma_le64_roundtrip(m.created_at, b, 29);
    assert(b.subrange(37, b.len() as int) =~= data);
}

} // verus!
