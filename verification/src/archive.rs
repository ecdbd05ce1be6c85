//! The multi-file `CPAR` archive format.
//!
//! `"CPAR" | version (1) | flags (1) | entry count (4 LE) | entries`
//!
//! Each entry: `path length (2 LE) | path (UTF-8) | original size (8 LE) |
//! compressed size or offset (8 LE) | flags (1) | timestamp (8 LE)`. A regular
//! archive follows each entry with its compressed data; a solid one (flag bit 0)
//! stores every file in one compressed concatenation after the index, preceded
//! by its length (8 LE), and records each file's offset in it.

use vstd::prelude::*;
use vstd::utf8::{valid_utf8, decode_utf8, encode_utf8};
use crate::bytes::{le16, le32, le64, get16, get32, get64, push_u16, push_u32, push_u64, push_all, read_u16, read_u32, read_u64, slice_to_vec, lemma_le16_roundtrip, lemma_le32_roundtrip, lemma_le64_roundtrip};
use crate::error::CpacError;

verus! {

/// Archive format version.
pub const CPAR_VERSION: u8 = 1;

/// Archive flag: solid archive.
pub const FLAG_SOLID: u8 = 0x01;

/// Most entries an archive may claim.
pub const MAX_ENTRIES: usize = 1000000;

/// The string `String::from_utf8_lossy` makes of `bytes`.
pub uninterp spec fn utf8_lossy_of(bytes: Seq<u8>) -> Seq<char>;

/// Decodes UTF-8, replacing invalid sequences with U+FFFD.
///
/// Calls `String::from_utf8_lossy` and turns the result into a `String`; the
/// characters are named by `utf8_lossy_of` and, as its documentation says, are
/// the decoded bytes when they are valid UTF-8.
#[verifier::external_body]
pub(crate) fn lossy_string(bytes: &[u8]) -> (r: String)
    ensures
        r@ == utf8_lossy_of(bytes@),
        valid_utf8(bytes@) ==> r@ == decode_utf8(bytes@),
{
    String::from_utf8_lossy(bytes).into_owned()
}

/// The characters `String::from_utf8_lossy` makes of `b`: the decoded
/// characters when `b` is valid UTF-8.
pub open spec fn lossy_decode(b: Seq<u8>) -> Seq<char> {
    if valid_utf8(b) {
        decode_utf8(b)
    } else {
        utf8_lossy_of(b)
    }
}

/// Metadata for a single archive entry.
#[derive(Clone, Debug)]
pub struct ArchiveEntry {
    pub path: String,
    pub original_size: u64,
    /// Compressed size (regular archive) or offset in the concatenation (solid).
    pub compressed_size: u64,
    pub flags: u8,
    pub timestamp: u64,
}

/// An entry as plain values: path, original size, compressed size or offset,
/// flags, timestamp.
pub type EntryView = (Seq<char>, u64, u64, u8, u64);

impl View for ArchiveEntry {
    type V = EntryView;

    open spec fn view(&self) -> EntryView {
        (self.path@, self.original_size, self.compressed_size, self.flags, self.timestamp)
    }
}

/// The `CPAR` magic bytes.
pub open spec fn cpar_magic() -> Seq<u8> {
    seq![0x43u8, 0x50u8, 0x41u8, 0x52u8]
}

/// Whether `d` is a solid archive.
pub open spec fn is_solid_spec(d: Seq<u8>) -> bool {
    d.len() >= 6 && d.subrange(0, 4) == cpar_magic() && (d[5] & FLAG_SOLID) != 0
}

/// The header bytes of one entry (path length truncated to 16 bits).
pub open spec fn entry_header(path: Seq<char>, orig: u64, aux: u64, flags: u8, ts: u64) -> Seq<u8> {
    let pb = encode_utf8(path);
    le16(pb.len() as u16) + pb + le64(orig) + le64(aux) + seq![flags] + le64(ts)
}

/// Reads the entry at `o`: the entry, its data offset (regular) or offset in the
/// concatenation (solid), and where the next entry starts; `None` when it is
/// truncated or, in a regular archive, its data runs past the end.
pub open spec fn parse_record(d: Seq<u8>, o: int, solid: bool) -> Option<(EntryView, int, int)> {
    if o + 2 > d.len() {
        None
    } else {
        let pl = get16(d, o) as int;
        let p = o + 2;
        if p + pl + 25 > d.len() {
            None
        } else {
            let q = p + pl;
            let aux = get64(d, q + 8);
            let e = (lossy_decode(d.subrange(p, q)), get64(d, q), aux, d[q + 16], get64(d, q + 17));
            if solid {
                Some((e, aux as int, q + 25))
            } else if q + 25 + aux > d.len() {
                None
            } else {
                Some((e, q + 25, q + 25 + aux))
            }
        }
    }
}

/// Reads `n` entries from `off`: the entries with their offsets, and where the
/// index ends.
pub open spec fn parse_records(d: Seq<u8>, off: int, n: int, solid: bool) -> Option<(Seq<(EntryView, int)>, int)>
    decreases n,
{
    if n <= 0 {
        Some((Seq::empty(), off))
    } else {
        match parse_records(d, off, n - 1, solid) {
            None => None,
            Some(st) => match parse_record(d, st.1, solid) {
                None => None,
                Some(r) => Some((st.0.push((r.0, r.1)), r.2)),
            },
        }
    }
}

/// The entries of a regular archive with each entry's data offset.
pub open spec fn parse_entries_spec(d: Seq<u8>) -> Option<Seq<(EntryView, int)>> {
    if d.len() < 10 || d.subrange(0, 4) != cpar_magic() || d[4] != CPAR_VERSION || get32(d, 6) > MAX_ENTRIES {
        None
    } else {
        match parse_records(d, 10, get32(d, 6) as int, false) {
            None => None,
            Some(st) => Some(st.0),
        }
    }
}

/// The index of a solid archive: entries with their offsets in the
/// concatenation, and where the compressed blob's length field starts.
pub open spec fn parse_solid_spec(d: Seq<u8>) -> Option<(Seq<(EntryView, int)>, int)> {
    if d.len() < 10 || d.subrange(0, 4) != cpar_magic() || get32(d, 6) > MAX_ENTRIES {
        None
    } else {
        parse_records(d, 10, get32(d, 6) as int, true)
    }
}

/// The entries listed in an archive of either kind.
pub open spec fn list_archive_spec(d: Seq<u8>) -> Option<Seq<EntryView>> {
    if is_solid_spec(d) {
        match parse_solid_spec(d) {
            None => None,
            Some(st) => Some(Seq::new(st.0.len(), |i: int| st.0[i].0)),
        }
    } else {
        match parse_entries_spec(d) {
            None => None,
            Some(rs) => Some(Seq::new(rs.len(), |i: int| rs[i].0)),
        }
    }
}

/// The views of entries paired with offsets.
pub open spec fn records_view(v: Seq<(ArchiveEntry, usize)>) -> Seq<(EntryView, int)> {
    Seq::new(v.len(), |i: int| (v[i].0@, v[i].1 as int))
}

/// The views of entries paired with offsets in the concatenation.
pub open spec fn solid_records_view(v: Seq<(ArchiveEntry, u64)>) -> Seq<(EntryView, int)> {
    Seq::new(v.len(), |i: int| (v[i].0@, v[i].1 as int))
}

/// The views of a list of entries.
pub open spec fn entries_view(v: Seq<ArchiveEntry>) -> Seq<EntryView> {
    Seq::new(v.len(), |i: int| v[i]@)
}

/// Whether an archive uses solid mode.
pub fn is_solid(data: &[u8]) -> (r: bool)
    ensures
        r == is_solid_spec(data@),
{
    if data.len() < 6 {
        return false;
    }
    let m = data[0] == 0x43u8 && data[1] == 0x50u8 && data[2] == 0x41u8 && data[3] == 0x52u8;
    proof {
        if m {
            assert(data@.subrange(0, 4) =~= cpar_magic());
        } else if data@.subrange(0, 4) == cpar_magic() {
            assert(data@[0] == data@.subrange(0, 4)[0]);
            assert(data@[1] == data@.subrange(0, 4)[1]);
            assert(data@[2] == data@.subrange(0, 4)[2]);
            assert(data@[3] == data@.subrange(0, 4)[3]);
        }
    }
    m && (data[5] & FLAG_SOLID) != 0
}

/// Reads the entry at `o`.
fn read_record(d: &[u8], o: usize, solid: bool) -> (r: Option<(ArchiveEntry, u64, usize)>)
    requires
        o <= d.len(),
    ensures
        r is Some <==> parse_record(d@, o as int, solid) is Some,
        r matches Some((e, aux, next)) ==> {
            &&& parse_record(d@, o as int, solid) == Some((e@, (if solid { aux as int } else { next - aux }), next as int))
            &&& o < next <= d.len()
            &&& (!solid ==> next >= aux)
        },
{
    if d.len() - o < 2 {
        return None;
    }
    let pl = read_u16(d, o) as usize;
    let p = o + 2;
    if d.len() - p < pl + 25 {
        return None;
    }
    let q = p + pl;
    let path = lossy_string(slice_to_vec(d, p, q).as_slice());
    let orig = read_u64(d, q);
    let aux = read_u64(d, q + 8);
    let flags = d[q + 16];
    let ts = read_u64(d, q + 17);
    let e = ArchiveEntry { path, original_size: orig, compressed_size: aux, flags, timestamp: ts };
    if solid {
        Some((e, aux, q + 25))
    } else {
        if ((d.len() - (q + 25)) as u64) < aux {
            return None;
        }
        Some((e, aux, q + 25 + aux as usize))
    }
}

proof fn lemma_parse_records_none_stays(d: Seq<u8>, off: int, k: int, n: int, solid: bool)
    requires
        k <= n,
        parse_records(d, off, k, solid) is None,
    ensures
        parse_records(d, off, n, solid) is None,
    decreases n - k,
{
    if k < n {
        lemma_parse_records_none_stays(d, off, k, n - 1, solid);
    }
}

/// Parses a regular archive: returns each entry with the offset of its data.
pub fn parse_entries(data: &[u8]) -> (r: Result<Vec<(ArchiveEntry, usize)>, CpacError>)
    ensures
        r is Ok <==> parse_entries_spec(data@) is Some,
        r matches Ok(v) ==> parse_entries_spec(data@) == Some(records_view(v@)),
        r matches Err(e) ==> e is InvalidFrame,
{
    let d = data;
    if d.len() < 10 || !(d[0] == 0x43u8 && d[1] == 0x50u8 && d[2] == 0x41u8 && d[3] == 0x52u8) {
        proof {
            if d@.len() >= 10 && d@.subrange(0, 4) == cpar_magic() {
                assert(d@[0] == d@.subrange(0, 4)[0]);
                assert(d@[1] == d@.subrange(0, 4)[1]);
                assert(d@[2] == d@.subrange(0, 4)[2]);
                assert(d@[3] == d@.subrange(0, 4)[3]);
            }
        }
        return Err(CpacError::InvalidFrame("not a CPAR archive".to_string()));
    }
    assert(d@.subrange(0, 4) =~= cpar_magic());
    if d[4] != CPAR_VERSION {
        return Err(CpacError::InvalidFrame("unsupported CPAR version".to_string()));
    }
    let n = read_u32(d, 6) as usize;
    if n > MAX_ENTRIES {
        return Err(CpacError::InvalidFrame("archive claims too many entries".to_string()));
    }
    let mut entries: Vec<(ArchiveEntry, usize)> = Vec::new();
    let mut off: usize = 10;
    let mut k: usize = 0;
    while k < n
        invariant
            k <= n,
            10 <= off <= d.len(),
            d@ == data@,
            d@.len() >= 10,
            d@.subrange(0, 4) == cpar_magic(),
            d@[4] == CPAR_VERSION,
            n == get32(d@, 6),
            n <= MAX_ENTRIES,
            parse_records(d@, 10, k as int, false) == Some((records_view(entries@), off as int)),
        decreases n - k,
    {
        match read_record(d, off, false) {
            None => {
                proof {
                    assert(parse_records(d@, 10, k + 1, false) is None);
                    lemma_parse_records_none_stays(d@, 10, k + 1, n as int, false);
                }
                return Err(CpacError::InvalidFrame("truncated".to_string()));
            },
            Some((e, aux, next)) => {
                let data_off = next - aux as usize;
                proof {
                    assert(records_view(entries@.push((e, data_off))) =~= records_view(entries@).push((e@, data_off as int)));
                }
                entries.push((e, data_off));
                off = next;
            },
        }
        k = k + 1;
    }
    Ok(entries)
}

/// Parses the index of a solid archive: returns each entry with its offset in
/// the concatenation, and the offset of the compressed blob's length field.
pub fn parse_solid_index(data: &[u8]) -> (r: Result<(Vec<(ArchiveEntry, u64)>, usize), CpacError>)
    ensures
        r is Ok <==> parse_solid_spec(data@) is Some,
        r matches Ok((v, end)) ==> parse_solid_spec(data@) == Some((solid_records_view(v@), end as int)),
        r matches Err(e) ==> e is InvalidFrame,
{
    let d = data;
    if d.len() < 10 || !(d[0] == 0x43u8 && d[1] == 0x50u8 && d[2] == 0x41u8 && d[3] == 0x52u8) {
        proof {
            if d@.len() >= 10 && d@.subrange(0, 4) == cpar_magic() {
                assert(d@[0] == d@.subrange(0, 4)[0]);
                assert(d@[1] == d@.subrange(0, 4)[1]);
                assert(d@[2] == d@.subrange(0, 4)[2]);
                assert(d@[3] == d@.subrange(0, 4)[3]);
            }
        }
        return Err(CpacError::InvalidFrame("not a CPAR archive".to_string()));
    }
    assert(d@.subrange(0, 4) =~= cpar_magic());
    let n = read_u32(d, 6) as usize;
    if n > MAX_ENTRIES {
        return Err(CpacError::InvalidFrame("archive claims too many entries".to_string()));
    }
    let mut entries: Vec<(ArchiveEntry, u64)> = Vec::new();
    let mut off: usize = 10;
    let mut k: usize = 0;
    while k < n
        invariant
            k <= n,
            10 <= off <= d.len(),
            d@ == data@,
            d@.len() >= 10,
            d@.subrange(0, 4) == cpar_magic(),
            n == get32(d@, 6),
            n <= MAX_ENTRIES,
            parse_records(d@, 10, k as int, true) == Some((solid_records_view(entries@), off as int)),
        decreases n - k,
    {
        match read_record(d, off, true) {
            None => {
                proof {
                    assert(parse_records(d@, 10, k + 1, true) is None);
                    lemma_parse_records_none_stays(d@, 10, k + 1, n as int, true);
                }
                return Err(CpacError::InvalidFrame("truncated".to_string()));
            },
            Some((e, aux, next)) => {
                proof {
                    assert(solid_records_view(entries@.push((e, aux))) =~= solid_records_view(entries@).push((e@, aux as int)));
                }
                entries.push((e, aux));
                off = next;
            },
        }
        k = k + 1;
    }
    Ok((entries, off))
}

/// Lists the entries of an archive (regular or solid) without extracting.
pub fn list_archive(archive: &[u8]) -> (r: Result<Vec<ArchiveEntry>, CpacError>)
    ensures
        r is Ok <==> list_archive_spec(archive@) is Some,
        r matches Ok(v) ==> list_archive_spec(archive@) == Some(entries_view(v@)),
        r matches Err(e) ==> e is InvalidFrame,
{
    let mut out: Vec<ArchiveEntry> = Vec::new();
    if is_solid(archive) {
        let (idx, _end) = match parse_solid_index(archive) {
            Ok(p) => p,
            Err(e) => return Err(e),
        };
        let ghost rv = solid_records_view(idx@);
        let mut i: usize = 0;
        while i < idx.len()
            invariant
                i <= idx.len(),
                rv == solid_records_view(idx@),
                out@.len() == i,
                entries_view(out@) =~= Seq::new(i as nat, |j: int| rv[j].0),
            decreases idx.len() - i,
        {
            let e = idx[i].0.clone_entry();
            proof {
                assert(rv[i as int].0 == e@);
            }
            let ghost before = out@;
            out.push(e);
            proof {
                assert(out@ == before.push(e));
                assert forall|j: int| 0 <= j < i + 1 implies #[trigger] entries_view(out@)[j] == rv[j].0 by {
                    if j < i {
                        assert(out@[j] == before[j]);
                        assert(entries_view(before)[j] == rv[j].0);
                    }
                }
            }
            i = i + 1;
        }
    } else {
        let idx = match parse_entries(archive) {
            Ok(p) => p,
            Err(e) => return Err(e),
        };
        let ghost rv = records_view(idx@);
        let mut i: usize = 0;
        while i < idx.len()
            invariant
                i <= idx.len(),
                rv == records_view(idx@),
                out@.len() == i,
                entries_view(out@) =~= Seq::new(i as nat, |j: int| rv[j].0),
            decreases idx.len() - i,
        {
            let e = idx[i].0.clone_entry();
            proof {
                assert(rv[i as int].0 == e@);
            }
            let ghost before = out@;
            out.push(e);
            proof {
                assert(out@ == before.push(e));
                assert forall|j: int| 0 <= j < i + 1 implies #[trigger] entries_view(out@)[j] == rv[j].0 by {
                    if j < i {
                        assert(out@[j] == before[j]);
                        assert(entries_view(before)[j] == rv[j].0);
                    }
                }
            }
            i = i + 1;
        }
    }
    Ok(out)
}

impl ArchiveEntry {
    /// A copy of the entry.
    pub fn clone_entry(&self) -> (r: ArchiveEntry)
        ensures
            r@ == self@,
    {
        ArchiveEntry {
            path: self.path.clone(),
            original_size: self.original_size,
            compressed_size: self.compressed_size,
            flags: self.flags,
            timestamp: self.timestamp,
        }
    }
}


/// The entries of a regular archive, each header followed by its data.
pub open spec fn regular_records(es: Seq<(EntryView, Seq<u8>)>) -> Seq<u8>
    decreases es.len(),
{
    if es.len() == 0 {
        Seq::empty()
    } else {
        let e = es.last().0;
        regular_records(es.drop_last()) + entry_header(e.0, e.1, e.2, e.3, e.4) + es.last().1
    }
}

/// A regular archive of `es` (its entry count truncated to 32 bits).
pub open spec fn regular_archive_bytes(es: Seq<(EntryView, Seq<u8>)>) -> Seq<u8> {
    cpar_magic() + seq![CPAR_VERSION, 0u8] + le32(es.len() as u32) + regular_records(es)
}

/// Where each entry's data starts when `es` is laid out from `base`.
pub open spec fn regular_index(es: Seq<(EntryView, Seq<u8>)>, base: int) -> Seq<(EntryView, int)>
    decreases es.len(),
{
    if es.len() == 0 {
        Seq::empty()
    } else {
        let e = es.last().0;
        regular_index(es.drop_last(), base).push((e, base + regular_records(es.drop_last()).len()
            + entry_header(e.0, e.1, e.2, e.3, e.4).len()))
    }
}

/// The view of entries paired with their data.
pub open spec fn entry_data_view(v: Seq<(ArchiveEntry, Vec<u8>)>) -> Seq<(EntryView, Seq<u8>)> {
    Seq::new(v.len(), |i: int| (v[i].0@, v[i].1@))
}

/// Appends the header of one entry.
fn write_entry_header(out: &mut Vec<u8>, path: &String, orig: u64, aux: u64, flags: u8, ts: u64)
    ensures
        final(out)@ == old(out)@ + entry_header(path@, orig, aux, flags, ts),
{
    let pb = path.as_str().as_bytes();
    push_u16(out, pb.len() as u16);
    push_all(out, pb);
    push_u64(out, orig);
    push_u64(out, aux);
    out.push(flags);
    push_u64(out, ts);
    assert(final(out)@ =~= old(out)@ + entry_header(path@, orig, aux, flags, ts));
}

/// Builds a regular archive from entries and their compressed data.
pub fn write_archive(entries: &[(ArchiveEntry, Vec<u8>)]) -> (r: Vec<u8>)
    ensures
        r@ == regular_archive_bytes(entry_data_view(entries@)),
{
    let ghost es = entry_data_view(entries@);
    let mut out: Vec<u8> = Vec::new();
    out.push(0x43u8);
    out.push(0x50u8);
    out.push(0x41u8);
    out.push(0x52u8);
    out.push(CPAR_VERSION);
    out.push(0u8);
    push_u32(&mut out, entries.len() as u32);
    let ghost head = out@;
    let mut i: usize = 0;
    while i < entries.len()
        invariant
            i <= entries.len(),
            es == entry_data_view(entries@),
            out@ == head + regular_records(es.subrange(0, i as int)),
        decreases entries.len() - i,
    {
        let (e, data) = &entries[i];
        write_entry_header(&mut out, &e.path, e.original_size, e.compressed_size, e.flags, e.timestamp);
        push_all(&mut out, data.as_slice());
        proof {
            let s1 = es.subrange(0, i + 1);
            assert(s1.drop_last() =~= es.subrange(0, i as int));
            assert(s1.last() == (e@, data@));
        }
        i = i + 1;
    }
    assert(es.subrange(0, entries@.len() as int) =~= es);
    assert(out@ =~= regular_archive_bytes(es));
    out
}

/// The files of a solid archive laid end to end.
pub open spec fn solid_concat_spec(fs: Seq<(Seq<char>, Seq<u8>, u64)>) -> Seq<u8>
    decreases fs.len(),
{
    if fs.len() == 0 {
        Seq::empty()
    } else {
        solid_concat_spec(fs.drop_last()) + fs.last().1
    }
}

/// The index of a solid archive: each file's header with its size and its
/// offset in the concatenation (both as 64-bit fields).
pub open spec fn solid_records(fs: Seq<(Seq<char>, Seq<u8>, u64)>) -> Seq<u8>
    decreases fs.len(),
{
    if fs.len() == 0 {
        Seq::empty()
    } else {
        let f = fs.last();
        solid_records(fs.drop_last()) + entry_header(f.0, f.1.len() as u64, solid_concat_spec(fs.drop_last()).len() as u64, 0, f.2)
    }
}

/// A solid archive of the files `fs` whose concatenation compressed to `blob`.
pub open spec fn solid_archive_bytes(fs: Seq<(Seq<char>, Seq<u8>, u64)>, blob: Seq<u8>) -> Seq<u8> {
    cpar_magic() + seq![CPAR_VERSION, FLAG_SOLID] + le32(fs.len() as u32) + solid_records(fs)
        + le64(blob.len() as u64) + blob
}

/// The view of a list of files: path, contents, timestamp.
pub open spec fn files_view(v: Seq<(String, Vec<u8>, u64)>) -> Seq<(Seq<char>, Seq<u8>, u64)> {
    Seq::new(v.len(), |i: int| (v[i].0@, v[i].1@, v[i].2))
}

/// Lays the files end to end: the stream a solid archive compresses.
pub fn solid_concat(files: &[(String, Vec<u8>, u64)]) -> (r: Vec<u8>)
    ensures
        r@ == solid_concat_spec(files_view(files@)),
{
    let ghost fs = files_view(files@);
    let mut out: Vec<u8> = Vec::new();
    let mut i: usize = 0;
    while i < files.len()
        invariant
            i <= files.len(),
            fs == files_view(files@),
            out@ == solid_concat_spec(fs.subrange(0, i as int)),
        decreases files.len() - i,
    {
        push_all(&mut out, files[i].1.as_slice());
        proof {
            let s1 = fs.subrange(0, i + 1);
            assert(s1.drop_last() =~= fs.subrange(0, i as int));
        }
        i = i + 1;
    }
    assert(fs.subrange(0, files@.len() as int) =~= fs);
    out
}

proof fn lemma_solid_concat_prefix_len(fs: Seq<(Seq<char>, Seq<u8>, u64)>, i: int)
    requires
        0 <= i <= fs.len(),
    ensures
        solid_concat_spec(fs.subrange(0, i)).len() <= solid_concat_spec(fs).len(),
    decreases fs.len() - i,
{
    if i < fs.len() {
        lemma_solid_concat_prefix_len(fs, i + 1);
        assert(fs.subrange(0, i + 1).drop_last() =~= fs.subrange(0, i));
    } else {
        assert(fs.subrange(0, i) =~= fs);
    }
}

/// Builds a solid archive from the files and the compressed concatenation.
pub fn write_archive_solid(files: &[(String, Vec<u8>, u64)], compressed: &[u8]) -> (r: Vec<u8>)
    requires
        solid_concat_spec(files_view(files@)).len() <= u64::MAX,
    ensures
        r@ == solid_archive_bytes(files_view(files@), compressed@),
{
    let ghost fs = files_view(files@);
    let mut out: Vec<u8> = Vec::new();
    out.push(0x43u8);
    out.push(0x50u8);
    out.push(0x41u8);
    out.push(0x52u8);
    out.push(CPAR_VERSION);
    out.push(FLAG_SOLID);
    push_u32(&mut out, files.len() as u32);
    let ghost head = out@;
    let mut offset: u64 = 0;
    let mut i: usize = 0;
    while i < files.len()
        invariant
            i <= files.len(),
            fs == files_view(files@),
            out@ == head + solid_records(fs.subrange(0, i as int)),
            offset == solid_concat_spec(fs.subrange(0, i as int)).len(),
            solid_concat_spec(fs).len() <= u64::MAX,
        decreases files.len() - i,
    {
        let (path, data, ts) = &files[i];
        write_entry_header(&mut out, path, data.len() as u64, offset, 0u8, *ts);
        proof {
            let s1 = fs.subrange(0, i + 1);
            assert(s1.drop_last() =~= fs.subrange(0, i as int));
            assert(s1.last() == (path@, data@, *ts));
        }
        proof {
            let s1 = fs.subrange(0, i + 1);
            assert(solid_concat_spec(s1) == solid_concat_spec(fs.subrange(0, i as int)) + data@);
            lemma_solid_concat_prefix_len(fs, i + 1);
        }
        offset = offset + data.len() as u64;
        i = i + 1;
    }
    assert(fs.subrange(0, files@.len() as int) =~= fs);
    push_u64(&mut out, compressed.len() as u64);
    push_all(&mut out, compressed);
    assert(out@ =~= solid_archive_bytes(fs, compressed@));
    out
}


/// The view of entries with their payloads.
pub open spec fn payloads_view(v: Seq<(ArchiveEntry, Vec<u8>)>) -> Seq<(EntryView, Seq<u8>)> {
    Seq::new(v.len(), |i: int| (v[i].0@, v[i].1@))
}

/// The entries of a regular archive with their compressed data.
pub open spec fn regular_payloads_spec(d: Seq<u8>) -> Option<Seq<(EntryView, Seq<u8>)>> {
    match parse_entries_spec(d) {
        None => None,
        Some(rs) => Some(Seq::new(rs.len(), |i: int| (rs[i].0, d.subrange(rs[i].1, rs[i].1 + rs[i].0.2)))),
    }
}

/// Reads every entry of a regular archive with its compressed data (the part of
/// extraction before decompression).
pub fn regular_payloads(archive: &[u8]) -> (r: Result<Vec<(ArchiveEntry, Vec<u8>)>, CpacError>)
    ensures
        r is Ok <==> regular_payloads_spec(archive@) is Some,
        r matches Ok(v) ==> regular_payloads_spec(archive@) == Some(payloads_view(v@)),
        r matches Err(e) ==> e is InvalidFrame,
{
    let parsed = match parse_entries(archive) {
        Ok(p) => p,
        Err(e) => return Err(e),
    };
    let ghost rs = records_view(parsed@);
    proof {
        lemma_parse_records_bounds(archive@, 10, get32(archive@, 6) as int, false);
    }
    let mut out: Vec<(ArchiveEntry, Vec<u8>)> = Vec::new();
    let mut i: usize = 0;
    while i < parsed.len()
        invariant
            i <= parsed.len(),
            rs == records_view(parsed@),
            parse_entries_spec(archive@) == Some(rs),
            forall|j: int| 0 <= j < rs.len() ==> 0 <= #[trigger] rs[j].1 && rs[j].1 + rs[j].0.2 <= archive@.len(),
            out@.len() == i,
            forall|j: int| 0 <= j < i ==> #[trigger] payloads_view(out@)[j] == (rs[j].0, archive@.subrange(rs[j].1, rs[j].1 + rs[j].0.2)),
        decreases parsed.len() - i,
    {
        let off = parsed[i].1;
        let comp = parsed[i].0.compressed_size;
        assert(rs[i as int].1 == off && rs[i as int].0.2 == comp);
        if ((archive.len() - off) as u64) < comp {
            return Err(CpacError::InvalidFrame("truncated archive data".to_string()));
        }
        let data = slice_to_vec(archive, off, off + comp as usize);
        let e = parsed[i].0.clone_entry();
        let ghost before = out@;
        out.push((e, data));
        proof {
            assert forall|j: int| 0 <= j < i + 1 implies #[trigger] payloads_view(out@)[j] == (rs[j].0, archive@.subrange(rs[j].1, rs[j].1 + rs[j].0.2)) by {
                if j < i {
                    assert(out@[j] == before[j]);
                    assert(payloads_view(before)[j] == (rs[j].0, archive@.subrange(rs[j].1, rs[j].1 + rs[j].0.2)));
                }
            }
        }
        i = i + 1;
    }
    assert(payloads_view(out@) =~= Seq::new(rs.len(), |j: int| (rs[j].0, archive@.subrange(rs[j].1, rs[j].1 + rs[j].0.2))));
    Ok(out)
}

proof fn lemma_parse_record_bounds(d: Seq<u8>, o: int, solid: bool)
    requires
        0 <= o,
    ensures
        parse_record(d, o, solid) matches Some(r) ==> o < r.2 <= d.len() && (!solid ==> r.1 >= 0 && r.1 + r.0.2 == r.2),
{
}

proof fn lemma_parse_records_bounds(d: Seq<u8>, off: int, n: int, solid: bool)
    requires
        0 <= off,
    ensures
        parse_records(d, off, n, solid) matches Some(st) ==> {
            &&& off <= st.1 && (n > 0 ==> st.1 <= d.len())
            &&& st.0.len() == (if n < 0 { 0 } else { n })
            &&& forall|j: int| 0 <= j < st.0.len() ==> !solid ==> 0 <= #[trigger] st.0[j].1 && st.0[j].1 + st.0[j].0.2 <= d.len()
        },
    decreases n,
{
    if n > 0 {
        lemma_parse_records_bounds(d, off, n - 1, solid);
        if let Some(st) = parse_records(d, off, n - 1, solid) {
            lemma_parse_record_bounds(d, st.1, solid);
        }
    }
}

/// The index of a solid archive with its compressed concatenation.
pub open spec fn solid_blob_spec(d: Seq<u8>) -> Option<(Seq<(EntryView, int)>, Seq<u8>)> {
    match parse_solid_spec(d) {
        None => None,
        Some((rs, end)) => {
            if end + 8 > d.len() {
                None
            } else {
                let size = get64(d, end) as int;
                if end + 8 + size > d.len() {
                    None
                } else {
                    Some((rs, d.subrange(end + 8, end + 8 + size)))
                }
            }
        },
    }
}

/// Reads the index and the compressed concatenation of a solid archive (the
/// part of extraction before decompression).
pub fn solid_blob(archive: &[u8]) -> (r: Result<(Vec<(ArchiveEntry, u64)>, Vec<u8>), CpacError>)
    ensures
        r is Ok <==> solid_blob_spec(archive@) is Some,
        r matches Ok((v, blob)) ==> solid_blob_spec(archive@) == Some((solid_records_view(v@), blob@)),
        r matches Err(e) ==> e is InvalidFrame,
{
    let (parsed, end) = match parse_solid_index(archive) {
        Ok(p) => p,
        Err(e) => return Err(e),
    };
    if archive.len() - end < 8 {
        return Err(CpacError::InvalidFrame("truncated solid blob header".to_string()));
    }
    let size = read_u64(archive, end);
    if ((archive.len() - end - 8) as u64) < size {
        return Err(CpacError::InvalidFrame("truncated solid blob data".to_string()));
    }
    let blob = slice_to_vec(archive, end + 8, end + 8 + size as usize);
    Ok((parsed, blob))
}

/// Whether every entry of a solid index lies inside the decompressed
/// concatenation of `len` bytes.
pub open spec fn solid_entries_fit(rs: Seq<(EntryView, int)>, len: int) -> bool {
    forall|i: int| 0 <= i < rs.len() ==> #[trigger] rs[i].1 + rs[i].0.1 <= len
}

/// Cuts the decompressed concatenation of a solid archive into its files.
pub fn split_solid(entries: &[(ArchiveEntry, u64)], concat: &[u8]) -> (r: Result<Vec<(ArchiveEntry, Vec<u8>)>, CpacError>)
    ensures
        r is Ok <==> solid_entries_fit(solid_records_view(entries@), concat@.len() as int),
        r matches Ok(v) ==> payloads_view(v@) == Seq::new(entries@.len(), |i: int| (entries@[i].0@,
            concat@.subrange(entries@[i].1 as int, entries@[i].1 + entries@[i].0.original_size))),
        r matches Err(e) ==> e is InvalidFrame,
{
    let ghost rs = solid_records_view(entries@);
    let mut out: Vec<(ArchiveEntry, Vec<u8>)> = Vec::new();
    let mut i: usize = 0;
    while i < entries.len()
        invariant
            i <= entries.len(),
            rs == solid_records_view(entries@),
            forall|j: int| 0 <= j < i ==> #[trigger] rs[j].1 + rs[j].0.1 <= concat@.len(),
            out@.len() == i,
            forall|j: int| 0 <= j < i ==> #[trigger] payloads_view(out@)[j] == (entries@[j].0@,
                concat@.subrange(entries@[j].1 as int, entries@[j].1 + entries@[j].0.original_size)),
        decreases entries.len() - i,
    {
        let start = entries[i].1;
        let size = entries[i].0.original_size;
        if start > concat.len() as u64 || size > concat.len() as u64 - start {
            assert(!(rs[i as int].1 + rs[i as int].0.1 <= concat@.len()));
            return Err(CpacError::InvalidFrame("solid entry out of bounds".to_string()));
        }
        let data = slice_to_vec(concat, start as usize, (start + size) as usize);
        let e = entries[i].0.clone_entry();
        let ghost before = out@;
        out.push((e, data));
        proof {
            assert forall|j: int| 0 <= j < i + 1 implies #[trigger] payloads_view(out@)[j] == (entries@[j].0@,
                concat@.subrange(entries@[j].1 as int, entries@[j].1 + entries@[j].0.original_size)) by {
                if j < i {
                    assert(out@[j] == before[j]);
                    assert(payloads_view(before)[j] == (entries@[j].0@,
                        concat@.subrange(entries@[j].1 as int, entries@[j].1 + entries@[j].0.original_size)));
                }
            }
        }
        i = i + 1;
    }
    assert(payloads_view(out@) =~= Seq::new(entries@.len(), |k: int| (entries@[k].0@,
        concat@.subrange(entries@[k].1 as int, entries@[k].1 + entries@[k].0.original_size))));
    Ok(out)
}


/// Length of an entry header.
proof fn lemma_entry_header_len(path: Seq<char>, orig: u64, aux: u64, flags: u8, ts: u64)
    ensures
        entry_header(path, orig, aux, flags, ts).len() == 27 + encode_utf8(path).len(),
{
}

/// Reading an entry back from its header gives the entry.
proof fn lemma_parse_entry(d: Seq<u8>, o: int, e: EntryView, solid: bool)
    requires
        0 <= o,
        encode_utf8(e.0).len() <= u16::MAX,
        o + entry_header(e.0, e.1, e.2, e.3, e.4).len() <= d.len(),
        d.subrange(o, o + entry_header(e.0, e.1, e.2, e.3, e.4).len()) == entry_header(e.0, e.1, e.2, e.3, e.4),
    ensures
        ({
            let hl = entry_header(e.0, e.1, e.2, e.3, e.4).len() as int;
            &&& solid ==> parse_record(d, o, true) == Some((e, e.2 as int, o + hl))
            &&& !solid && o + hl + e.2 <= d.len() ==> parse_record(d, o, false) == Some((e, o + hl, o + hl + e.2))
        }),
{
    let pb = encode_utf8(e.0);
    let pl = pb.len() as int;
    let h = entry_header(e.0, e.1, e.2, e.3, e.4);
    let hl = h.len() as int;
    lemma_entry_header_len(e.0, e.1, e.2, e.3, e.4);
    assert forall|k: int| 0 <= k < hl implies #[trigger] d[o + k] == h[k] by {
        assert(d.subrange(o, o + hl)[k] == d[o + k]);
    }
    assert(d.subrange(o, o + 2) =~= le16(pl as u16)) by {
        assert forall|k: int| 0 <= k < 2 implies #[trigger] d.subrange(o, o + 2)[k] == le16(pl as u16)[k] by {
            assert(d[o + k] == h[k]);
        }
    }
    lemma_le16_roundtrip(pl as u16, d, o);
    let p = o + 2;
    let q = p + pl;
    assert(d.subrange(p, q) =~= pb) by {
        assert forall|k: int| 0 <= k < pl implies #[trigger] d.subrange(p, q)[k] == pb[k] by {
            assert(d[o + 2 + k] == h[2 + k]);
        }
    }
    vstd::utf8::encode_utf8_valid_utf8(e.0);
    vstd::utf8::encode_utf8_decode_utf8(e.0);
    assert(d.subrange(q, q + 8) =~= le64(e.1)) by {
        assert forall|k: int| 0 <= k < 8 implies #[trigger] d.subrange(q, q + 8)[k] == le64(e.1)[k] by {
            assert(d[o + (2 + pl + k)] == h[2 + pl + k]);
        }
    }
    lemma_le64_roundtrip(e.1, d, q);
    assert(d.subrange(q + 8, q + 16) =~= le64(e.2)) by {
        assert forall|k: int| 0 <= k < 8 implies #[trigger] d.subrange(q + 8, q + 16)[k] == le64(e.2)[k] by {
            assert(d[o + (10 + pl + k)] == h[10 + pl + k]);
        }
    }
    lemma_le64_roundtrip(e.2, d, q + 8);
    assert(d[o + (18 + pl)] == h[18 + pl]);
    assert(d.subrange(q + 17, q + 25) =~= le64(e.4)) by {
        assert forall|k: int| 0 <= k < 8 implies #[trigger] d.subrange(q + 17, q + 25)[k] == le64(e.4)[k] by {
            assert(d[o + (19 + pl + k)] == h[19 + pl + k]);
        }
    }
    lemma_le64_roundtrip(e.4, d, q + 17);
}

/// Whether each entry's path fits the 16-bit length field and its compressed
/// size is the length of its data.
pub open spec fn regular_entries_ok(es: Seq<(EntryView, Seq<u8>)>) -> bool {
    forall|i: int| 0 <= i < es.len() ==> encode_utf8(#[trigger] es[i].0.0).len() <= u16::MAX && es[i].0.2 == es[i].1.len()
}

proof fn lemma_regular_entries_ok_init(es: Seq<(EntryView, Seq<u8>)>)
    requires
        es.len() > 0,
        regular_entries_ok(es),
    ensures
        regular_entries_ok(es.drop_last()),
        encode_utf8(es.last().0.0).len() <= u16::MAX,
        es.last().0.2 == es.last().1.len(),
{
    let init = es.drop_last();
    assert forall|i: int| 0 <= i < init.len() implies encode_utf8(#[trigger] init[i].0.0).len() <= u16::MAX && init[i].0.2 == init[i].1.len() by {
        assert(init[i] == es[i]);
    }
    assert(es.last() == es[es.len() - 1]);
}

#[verifier::rlimit(40)]
proof fn lemma_regular_records_parse(pre: Seq<u8>, es: Seq<(EntryView, Seq<u8>)>, post: Seq<u8>)
    requires
        regular_entries_ok(es),
    ensures
        parse_records(pre + regular_records(es) + post, pre.len() as int, es.len() as int, false)
            == Some((regular_index(es, pre.len() as int), (pre.len() + regular_records(es).len()) as int)),
    decreases es.len(),
{
    if es.len() > 0 {
        let d = pre + regular_records(es) + post;
        let init = es.drop_last();
        let last = es.last();
        let e = last.0;
        let h = entry_header(e.0, e.1, e.2, e.3, e.4);
        let tail = h + last.1 + post;
        assert(d =~= pre + regular_records(init) + tail);
        lemma_regular_entries_ok_init(es);
        lemma_regular_records_parse(pre, init, tail);
        let o = (pre.len() + regular_records(init).len()) as int;
        assert(d.subrange(o, o + h.len()) =~= h);
        lemma_parse_entry(d, o, e, false);
    }
}

#[verifier::rlimit(40)]
proof fn lemma_regular_payloads(pre: Seq<u8>, es: Seq<(EntryView, Seq<u8>)>, post: Seq<u8>)
    requires
        regular_entries_ok(es),
    ensures
        regular_index(es, pre.len() as int).len() == es.len(),
        forall|j: int| 0 <= j < es.len() ==> (pre + regular_records(es) + post).subrange(
            #[trigger] regular_index(es, pre.len() as int)[j].1, regular_index(es, pre.len() as int)[j].1 + es[j].1.len()) == es[j].1,
        forall|j: int| 0 <= j < es.len() ==> (#[trigger] regular_index(es, pre.len() as int)[j]).0 == es[j].0,
    decreases es.len(),
{
    if es.len() > 0 {
        let d = pre + regular_records(es) + post;
        let init = es.drop_last();
        let last = es.last();
        let e = last.0;
        let h = entry_header(e.0, e.1, e.2, e.3, e.4);
        let tail = h + last.1 + post;
        assert(d =~= pre + regular_records(init) + tail);
        lemma_regular_entries_ok_init(es);
        lemma_regular_payloads(pre, init, tail);
        let idx = regular_index(es, pre.len() as int);
        let idx0 = regular_index(init, pre.len() as int);
        let o = (pre.len() + regular_records(init).len()) as int;
        assert forall|j: int| 0 <= j < es.len() implies d.subrange(#[trigger] idx[j].1, idx[j].1 + es[j].1.len()) == es[j].1 by {
            if j < init.len() {
                assert(idx[j] == idx0[j]);
                assert(es[j] == init[j]);
            } else {
                assert(d.subrange(o + h.len(), o + h.len() + last.1.len()) =~= last.1);
            }
        }
        assert forall|j: int| 0 <= j < es.len() implies (#[trigger] idx[j]).0 == es[j].0 by {
            if j < init.len() {
                assert(idx[j] == idx0[j]);
                assert(es[j] == init[j]);
            }
        }
    }
}

/// A regular archive built from entries and their data parses back to the same
/// entries, each with an offset at which its data stands, and lists them, when
/// there are at most `MAX_ENTRIES`, every path fits its 16-bit length field and
/// every compressed size is the length of its data.
#[verifier::spinoff_prover]
#[verifier::rlimit(60)]
pub proof fn lemma_archive_roundtrip(es: Seq<(EntryView, Seq<u8>)>)
    requires
        es.len() <= MAX_ENTRIES,
        regular_entries_ok(es),
    ensures
        parse_entries_spec(regular_archive_bytes(es)) == Some(regular_index(es, 10)),
        forall|j: int| 0 <= j < es.len() ==> regular_archive_bytes(es).subrange(
            #[trigger] regular_index(es, 10)[j].1, regular_index(es, 10)[j].1 + es[j].1.len()) == es[j].1,
        regular_payloads_spec(regular_archive_bytes(es)) == Some(es),
        list_archive_spec(regular_archive_bytes(es)) == Some(Seq::new(es.len(), |i: int| es[i].0)),
{
    let pre = cpar_magic() + seq![CPAR_VERSION, 0u8] + le32(es.len() as u32);
    let d = regular_archive_bytes(es);
    assert(d == pre + regular_records(es) + Seq::<u8>::empty()) by {
        assert(d =~= pre + regular_records(es) + Seq::<u8>::empty());
    }
    lemma_cpar_prefix(0u8, es.len() as u32, regular_records(es));
    lemma_regular_records_parse(pre, es, Seq::<u8>::empty());
    lemma_regular_payloads(pre, es, Seq::<u8>::empty());
    assert(!is_solid_spec(d)) by {
        assert((0u8 & FLAG_SOLID) == 0u8) by (bit_vector);
    }
    let idx = regular_index(es, 10);
    assert(parse_entries_spec(d) == Some(idx));
    assert(Seq::new(idx.len(), |i: int| (idx[i].0, d.subrange(idx[i].1, idx[i].1 + idx[i].0.2))) =~= es) by {
        assert forall|i: int| 0 <= i < es.len() implies #[trigger] es[i] == (idx[i].0, d.subrange(idx[i].1, idx[i].1 + idx[i].0.2)) by {
            assert(idx[i].0 == es[i].0);
            assert(encode_utf8(es[i].0.0).len() <= u16::MAX && es[i].0.2 == es[i].1.len());
        }
    }
    assert(Seq::new(idx.len(), |i: int| idx[i].0) =~= Seq::new(es.len(), |i: int| es[i].0));
}

/// The fixed archive header.
proof fn lemma_cpar_prefix(flag: u8, n: u32, rest: Seq<u8>)
    ensures
        ({
            let d = cpar_magic() + seq![CPAR_VERSION, flag] + le32(n) + rest;
            &&& d.len() >= 10
            &&& d.subrange(0, 4) == cpar_magic()
            &&& d[4] == CPAR_VERSION
            &&& d[5] == flag
            &&& get32(d, 6) == n
            &&& (cpar_magic() + seq![CPAR_VERSION, flag] + le32(n)).len() == 10
        }),
{
    let d = cpar_magic() + seq![CPAR_VERSION, flag] + le32(n) + rest;
    assert(d.subrange(0, 4) =~= cpar_magic());
    assert(d.subrange(6, 10) =~= le32(n));
    lemma_le32_roundtrip(n, d, 6);
}

/// Where each file stands in a solid archive's index: its entry and its offset
/// in the concatenation.
pub open spec fn solid_index(fs: Seq<(Seq<char>, Seq<u8>, u64)>) -> Seq<(EntryView, int)>
    decreases fs.len(),
{
    if fs.len() == 0 {
        Seq::empty()
    } else {
        let f = fs.last();
        let off = solid_concat_spec(fs.drop_last()).len();
        solid_index(fs.drop_last()).push(((f.0, f.1.len() as u64, off as u64, 0u8, f.2), off as int))
    }
}

/// Whether every path fits its 16-bit length field and the concatenation
/// fits 64 bits.
pub open spec fn solid_files_ok(fs: Seq<(Seq<char>, Seq<u8>, u64)>) -> bool {
    &&& forall|i: int| 0 <= i < fs.len() ==> encode_utf8(#[trigger] fs[i].0).len() <= u16::MAX
    &&& solid_concat_spec(fs).len() <= u64::MAX
}

#[verifier::rlimit(40)]
proof fn lemma_solid_records_parse(pre: Seq<u8>, fs: Seq<(Seq<char>, Seq<u8>, u64)>, post: Seq<u8>)
    requires
        solid_files_ok(fs),
    ensures
        parse_records(pre + solid_records(fs) + post, pre.len() as int, fs.len() as int, true)
            == Some((solid_index(fs), (pre.len() + solid_records(fs).len()) as int)),
    decreases fs.len(),
{
    if fs.len() > 0 {
        let d = pre + solid_records(fs) + post;
        let init = fs.drop_last();
        let f = fs.last();
        let off = solid_concat_spec(init).len();
        let e: EntryView = (f.0, f.1.len() as u64, off as u64, 0u8, f.2);
        let h = entry_header(e.0, e.1, e.2, e.3, e.4);
        let tail = h + post;
        assert(d =~= pre + solid_records(init) + tail);
        lemma_solid_concat_prefix_len(fs, fs.len() - 1);
        assert(fs.subrange(0, fs.len() - 1) =~= init);
        assert(solid_files_ok(init)) by {
            assert forall|i: int| 0 <= i < init.len() implies encode_utf8(#[trigger] init[i].0).len() <= u16::MAX by {
                assert(init[i] == fs[i]);
            }
        }
        assert(fs.last() == fs[fs.len() - 1]);
        lemma_solid_records_parse(pre, init, tail);
        let o = (pre.len() + solid_records(init).len()) as int;
        assert(d.subrange(o, o + h.len()) =~= h);
        lemma_parse_entry(d, o, e, true);
    }
}

proof fn lemma_solid_index_offsets(fs: Seq<(Seq<char>, Seq<u8>, u64)>)
    ensures
        solid_index(fs).len() == fs.len(),
        forall|j: int| 0 <= j < fs.len() ==> (#[trigger] solid_index(fs)[j]).1 == solid_concat_spec(fs.subrange(0, j)).len()
            && solid_index(fs)[j].0.1 == fs[j].1.len() as u64,
    decreases fs.len(),
{
    if fs.len() > 0 {
        let init = fs.drop_last();
        lemma_solid_index_offsets(init);
        assert forall|j: int| 0 <= j < fs.len() implies (#[trigger] solid_index(fs)[j]).1 == solid_concat_spec(fs.subrange(0, j)).len()
            && solid_index(fs)[j].0.1 == fs[j].1.len() as u64 by {
            if j < init.len() {
                assert(solid_index(fs)[j] == solid_index(init)[j]);
                assert(fs.subrange(0, j) =~= init.subrange(0, j));
                assert(fs[j] == init[j]);
            } else {
                assert(fs.subrange(0, j) =~= init);
            }
        }
    }
}

proof fn lemma_solid_concat_slices(fs: Seq<(Seq<char>, Seq<u8>, u64)>, j: int)
    requires
        0 <= j < fs.len(),
    ensures
        ({
            let off = solid_concat_spec(fs.subrange(0, j)).len() as int;
            solid_concat_spec(fs).subrange(off, off + fs[j].1.len()) == fs[j].1
        }),
    decreases fs.len(),
{
    if j < fs.len() - 1 {
        let init = fs.drop_last();
        lemma_solid_concat_slices(init, j);
        assert(fs.subrange(0, j) =~= init.subrange(0, j));
        assert(fs[j] == init[j]);
        lemma_solid_concat_prefix_len(init, j + 1);
        assert(init.subrange(0, j + 1).drop_last() =~= init.subrange(0, j));
        assert(solid_concat_spec(init.subrange(0, j + 1)).len() == solid_concat_spec(init.subrange(0, j)).len() + init[j].1.len());
        let off = solid_concat_spec(fs.subrange(0, j)).len() as int;
        assert(solid_concat_spec(fs).subrange(off, off + fs[j].1.len()) =~= solid_concat_spec(init).subrange(off, off + fs[j].1.len()));
    } else {
        assert(fs.subrange(0, j) =~= fs.drop_last());
    }
}

/// A solid archive built from files and the compressed concatenation parses
/// back to one entry per file (its path, size, offset and timestamp), is marked
/// solid, holds the compressed concatenation, and each entry's offset and size
/// cut its file out of the concatenation, when there are at most `MAX_ENTRIES`
/// files, every path fits its 16-bit length field and the concatenation fits
/// 64 bits.
#[verifier::spinoff_prover]
#[verifier::rlimit(60)]
pub proof fn lemma_solid_archive_roundtrip(fs: Seq<(Seq<char>, Seq<u8>, u64)>, blob: Seq<u8>)
    requires
        fs.len() <= MAX_ENTRIES,
        blob.len() <= u64::MAX,
        solid_files_ok(fs),
    ensures
        is_solid_spec(solid_archive_bytes(fs, blob)),
        solid_blob_spec(solid_archive_bytes(fs, blob)) == Some((solid_index(fs), blob)),
        forall|j: int| 0 <= j < fs.len() ==> solid_concat_spec(fs).subrange(#[trigger] solid_index(fs)[j].1,
            solid_index(fs)[j].1 + fs[j].1.len()) == fs[j].1,
        list_archive_spec(solid_archive_bytes(fs, blob)) == Some(Seq::new(fs.len(), |i: int| solid_index(fs)[i].0)),
{
    let pre = cpar_magic() + seq![CPAR_VERSION, FLAG_SOLID] + le32(fs.len() as u32);
    let post = le64(blob.len() as u64) + blob;
    let d = solid_archive_bytes(fs, blob);
    assert(d == pre + solid_records(fs) + post) by {
        assert(d =~= pre + solid_records(fs) + post);
    }
    lemma_cpar_prefix(FLAG_SOLID, fs.len() as u32, solid_records(fs) + post);
    assert(d == cpar_magic() + seq![CPAR_VERSION, FLAG_SOLID] + le32(fs.len() as u32) + (solid_records(fs) + post)) by {
        assert(d =~= cpar_magic() + seq![CPAR_VERSION, FLAG_SOLID] + le32(fs.len() as u32) + (solid_records(fs) + post));
    }
    lemma_solid_records_parse(pre, fs, post);
    assert((FLAG_SOLID & FLAG_SOLID) != 0u8) by (bit_vector);
    let end = (pre.len() + solid_records(fs).len()) as int;
    assert(d.subrange(end, end + 8) =~= le64(blob.len() as u64));
    lemma_le64_roundtrip(blob.len() as u64, d, end);
    assert(d.subrange(end + 8, end + 8 + blob.len()) =~= blob);
    lemma_solid_index_offsets(fs);
    assert forall|j: int| 0 <= j < fs.len() implies solid_concat_spec(fs).subrange(#[trigger] solid_index(fs)[j].1,
        solid_index(fs)[j].1 + fs[j].1.len()) == fs[j].1 by {
        lemma_solid_concat_slices(fs, j);
    }
}

} // verus!
