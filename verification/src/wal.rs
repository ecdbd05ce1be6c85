//! Append-only CPWL journal (write-ahead log) format.
//!
//! File header: `"WL" | version (1) | flags (2 LE) | created timestamp (8 LE, Unix µs)`.
//!
//! Each entry: `0xE1 | seq (8 LE) | timestamp (8 LE) | key length (2 LE) | key (UTF-8) |
//! payload length (4 LE) | payload | CRC-32C of key ++ payload (4 LE)`.
//!
//! Recovery scans forward and stops at the first entry that is truncated,
//! malformed or fails its CRC.

use vstd::prelude::*;
use vstd::utf8::{valid_utf8, decode_utf8, encode_utf8};
use crate::bytes::{le16, le32, le64, get16, get32, get64, lemma_le16_roundtrip, lemma_le32_roundtrip, lemma_le64_roundtrip, push_u16, push_u32, push_u64, push_all, slice_to_vec, read_u16, read_u32, read_u64};
use crate::crc::{crc32c, crc32c_spec};
use crate::error::CpacError;

verus! {

/// Size of the journal header in bytes.
pub const WAL_HEADER_SIZE: usize = 13;

/// Journal header bytes for a journal created at `ts`.
pub open spec fn wal_header(ts: u64) -> Seq<u8> {
    seq![0x57u8, 0x4Cu8, 1u8] + le16(0) + le64(ts)
}

/// Encoding of one entry with key bytes `key`.
pub open spec fn entry_bytes(seq: u64, ts: u64, key: Seq<u8>, payload: Seq<u8>) -> Seq<u8> {
    seq![0xE1u8] + le64(seq) + le64(ts) + le16(key.len() as u16) + key + le32(payload.len() as u32)
        + payload + le32(crc32c_spec(key + payload))
}

/// An entry as plain values: sequence number, timestamp, key bytes, payload.
pub type EntryView = (u64, u64, Seq<u8>, Seq<u8>);

/// Result of reading the entry that starts at `p` in `d`: `None` at the end of
/// the data, `Some(Err(()))` when the entry is truncated, malformed or fails its
/// CRC, and the entry otherwise.
pub open spec fn wal_next(d: Seq<u8>, p: int) -> Option<Result<EntryView, ()>> {
    if p >= d.len() {
        None
    } else if d[p] != 0xE1 {
        Some(Err(()))
    } else if p + 19 > d.len() {
        Some(Err(()))
    } else {
        let kl = get16(d, p + 17) as int;
        let k0 = p + 19;
        if k0 + kl > d.len() {
            Some(Err(()))
        } else if !valid_utf8(d.subrange(k0, k0 + kl)) {
            Some(Err(()))
        } else if k0 + kl + 4 > d.len() {
            Some(Err(()))
        } else {
            let pl = get32(d, k0 + kl) as int;
            let q0 = k0 + kl + 4;
            if q0 + pl + 4 > d.len() {
                Some(Err(()))
            } else {
                let key = d.subrange(k0, k0 + kl);
                let payload = d.subrange(q0, q0 + pl);
                if get32(d, q0 + pl) != crc32c_spec(key + payload) {
                    Some(Err(()))
                } else {
                    Some(Ok((get64(d, p + 1), get64(d, p + 9), key, payload)))
                }
            }
        }
    }
}

/// Position after the entry that starts at `p` in `d`.
pub open spec fn wal_next_pos(d: Seq<u8>, p: int) -> int {
    let kl = get16(d, p + 17) as int;
    p + 27 + kl + get32(d, p + 19 + kl) as int
}

/// The entries recovered by scanning `d` from `p`.
pub open spec fn wal_recover(d: Seq<u8>, p: int) -> Seq<EntryView>
    decreases d.len() - p,
{
    match wal_next(d, p) {
        Some(Ok(e)) => {
            let q = wal_next_pos(d, p);
            if p < q <= d.len() {
                seq![e] + wal_recover(d, q)
            } else {
                Seq::empty()
            }
        },
        _ => Seq::empty(),
    }
}

/// A single journal entry.
#[derive(Debug, Clone)]
pub struct WalEntry {
    /// Monotonically increasing sequence number.
    pub seq: u64,
    /// Timestamp (Unix microseconds).
    pub timestamp: u64,
    /// Entry key (for example a file name).
    pub key: String,
    /// Payload.
    pub payload: Vec<u8>,
}

impl WalEntry {
    /// The entry as plain values, with its key as UTF-8 bytes.
    pub open spec fn view_bytes(self) -> EntryView {
        (self.seq, self.timestamp, encode_utf8(self.key@), self.payload@)
    }
}

/// The entries as plain values.
pub open spec fn entries_view(v: Seq<WalEntry>) -> Seq<EntryView> {
    Seq::new(v.len(), |i: int| v[i].view_bytes())
}

/// Current time in Unix microseconds.
///
/// Calls `std::time::SystemTime::now` and `duration_since(UNIX_EPOCH)`; a clock
/// before the epoch gives 0. Nothing is stated of the value: it is the time.
#[verifier::external_body]
fn now_micros() -> u64 {
    std::time::SystemTime::now().duration_since(std::time::UNIX_EPOCH).unwrap_or_default().as_micros() as u64
}

/// Builds a `String` from UTF-8 bytes.
///
/// Calls `String::from_utf8`, which returns its error exactly when the bytes
/// are not valid UTF-8; the string then holds the decoded characters.
#[verifier::external_body]
pub(crate) fn string_from_utf8(bytes: Vec<u8>) -> (r: Option<String>)
    ensures
        r is Some <==> valid_utf8(bytes@),
        r matches Some(s) ==> s@ == decode_utf8(bytes@),
{
    String::from_utf8(bytes).ok()
}

/// Append-only journal writer over an in-memory byte buffer.
pub struct WalWriter {
    inner: Vec<u8>,
    next_seq: u64,
    entries_written: u64,
}

impl View for WalWriter {
    /// (journal bytes, next sequence number, entries written)
    type V = (Seq<u8>, u64, u64);

    closed spec fn view(&self) -> (Seq<u8>, u64, u64) {
        (self.inner@, self.next_seq, self.entries_written)
    }
}

impl WalWriter {
    /// Creates a journal whose header carries the timestamp `ts`, appending the
    /// header to `inner`.
    pub fn create_at(inner: Vec<u8>, ts: u64) -> (w: WalWriter)
        ensures
            w@ == (inner@ + wal_header(ts), 0u64, 0u64),
    {
        let ghost start = inner@;
        let mut inner = inner;
        inner.push(0x57u8);
        inner.push(0x4Cu8);
        inner.push(1u8);
        push_u16(&mut inner, 0u16);
        push_u64(&mut inner, ts);
        assert(inner@ =~= start + wal_header(ts));
        WalWriter { inner, next_seq: 0, entries_written: 0 }
    }

    /// Creates a journal stamped with the current time, appending the header
    /// to `inner`.
    pub fn create(inner: Vec<u8>) -> (r: Result<WalWriter, CpacError>)
        ensures
            r matches Ok(w) ==> exists|ts: u64| w@ == (inner@ + wal_header(ts), 0u64, 0u64),
            r is Ok,
    {
        let ts = now_micros();
        Ok(Self::create_at(inner, ts))
    }

    /// Appends an entry stamped `ts`; returns its sequence number.
    pub fn append_at(&mut self, key: &str, payload: &[u8], ts: u64) -> (seq: u64)
        requires
            old(self)@.1 < u64::MAX,
            old(self)@.2 < u64::MAX,
        ensures
            seq == old(self)@.1,
            final(self)@ == (
                old(self)@.0 + entry_bytes(seq, ts, encode_utf8(key@), payload@),
                (old(self)@.1 + 1) as u64,
                (old(self)@.2 + 1) as u64,
            ),
    {
        let seq = self.next_seq;
        let key_bytes = key.as_bytes();
        let mut crc_data: Vec<u8> = Vec::new();
        push_all(&mut crc_data, key_bytes);
        push_all(&mut crc_data, payload);
        let crc = crc32c(crc_data.as_slice());
        let ghost start = self.inner@;
        self.inner.push(0xE1u8);
        push_u64(&mut self.inner, seq);
        push_u64(&mut self.inner, ts);
        push_u16(&mut self.inner, key_bytes.len() as u16);
        push_all(&mut self.inner, key_bytes);
        push_u32(&mut self.inner, payload.len() as u32);
        push_all(&mut self.inner, payload);
        push_u32(&mut self.inner, crc);
        self.next_seq = self.next_seq + 1;
        self.entries_written = self.entries_written + 1;
        assert(self.inner@ =~= start + entry_bytes(seq, ts, encode_utf8(key@), payload@));
        seq
    }

    /// Appends an entry stamped with the current time; returns its sequence number.
    pub fn append(&mut self, key: &str, payload: &[u8]) -> (r: Result<u64, CpacError>)
        requires
            old(self)@.1 < u64::MAX,
            old(self)@.2 < u64::MAX,
        ensures
            r == Ok::<u64, CpacError>(old(self)@.1),
            final(self)@.1 == old(self)@.1 + 1,
            final(self)@.2 == old(self)@.2 + 1,
            exists|ts: u64|
                final(self)@.0 == old(self)@.0 + #[trigger] entry_bytes(
                    old(self)@.1,
                    ts,
                    encode_utf8(key@),
                    payload@,
                ),
    {
        let ts = now_micros();
        let ghost before = self@;
        let n = self.append_at(key, payload, ts);
        assert(self@.0 == before.0 + entry_bytes(before.1, ts, encode_utf8(key@), payload@));
        Ok(n)
    }

    /// Number of entries written so far.
    pub fn entries_written(&self) -> (r: u64)
        ensures
            r == self@.2,
    {
        self.entries_written
    }

    /// Consumes the writer, returning the journal bytes.
    pub fn into_inner(self) -> (r: Vec<u8>)
        ensures
            r@ == self@.0,
    {
        self.inner
    }
}


/// Journal reader with crash-recovery support, over the journal bytes.
pub struct WalReader {
    inner: Vec<u8>,
    pos: usize,
    created_timestamp: u64,
}

impl View for WalReader {
    /// (journal bytes, read position, creation timestamp)
    type V = (Seq<u8>, int, u64);

    closed spec fn view(&self) -> (Seq<u8>, int, u64) {
        (self.inner@, self.pos as int, self.created_timestamp)
    }
}

/// Whether `d` starts with a valid journal header.
pub open spec fn wal_header_ok(d: Seq<u8>) -> bool {
    d.len() >= 13 && d[0] == 0x57 && d[1] == 0x4C && d[2] == 1
}

impl WalReader {
    /// Opens a journal for reading, checking its header.
    pub fn open(inner: Vec<u8>) -> (r: Result<WalReader, CpacError>)
        ensures
            r is Ok <==> wal_header_ok(inner@),
            r matches Ok(rd) ==> rd@ == (inner@, 13int, get64(inner@, 5)),
            r matches Err(e) ==> e is InvalidFrame,
    {
        if inner.len() < WAL_HEADER_SIZE {
            return Err(CpacError::InvalidFrame("WAL header read: unexpected end of file".to_string()));
        }
        if inner[0] != 0x57u8 || inner[1] != 0x4Cu8 || inner[2] != 1u8 {
            return Err(CpacError::InvalidFrame("not a CPWL journal".to_string()));
        }
        let created = read_u64(inner.as_slice(), 5);
        WalReader { inner, pos: WAL_HEADER_SIZE, created_timestamp: created }.into_ok()
    }

    fn into_ok(self) -> (r: Result<WalReader, CpacError>)
        ensures
            r == Ok::<WalReader, CpacError>(self),
    {
        Ok(self)
    }

    /// Reads the entry at the current position: `None` at the end of the
    /// journal, an error for a truncated, malformed or corrupt entry (the
    /// position is then left unchanged), and the entry otherwise.
    pub fn next_entry(&mut self) -> (r: Option<Result<WalEntry, CpacError>>)
        ensures
            final(self)@.0 == old(self)@.0,
            final(self)@.2 == old(self)@.2,
            match wal_next(old(self)@.0, old(self)@.1) {
                None => r is None && final(self)@.1 == old(self)@.1,
                Some(Err(_)) => r matches Some(Err(e)) && e is InvalidFrame && final(self)@.1 == old(
                    self,
                )@.1,
                Some(Ok(ev)) => r matches Some(Ok(entry)) && entry.view_bytes() == ev && final(self)@.1
                    == wal_next_pos(old(self)@.0, old(self)@.1) && old(self)@.1 < final(self)@.1
                    <= old(self)@.0.len(),
            },
    {
        let d = self.inner.as_slice();
        let p = self.pos;
        if p >= d.len() {
            return None;
        }
        if d[p] != 0xE1u8 {
            return Some(Err(CpacError::InvalidFrame("bad entry magic".to_string())));
        }
        if d.len() - p < 19 {
            return Some(Err(CpacError::InvalidFrame("truncated entry header".to_string())));
        }
        let seq = read_u64(d, p + 1);
        let ts = read_u64(d, p + 9);
        let key_len = read_u16(d, p + 17) as usize;
        let k0 = p + 19;
        if d.len() - k0 < key_len {
            return Some(Err(CpacError::InvalidFrame("truncated key".to_string())));
        }
        let key_buf = slice_to_vec(d, k0, k0 + key_len);
        let key = match string_from_utf8(key_buf.clone()) {
            Some(k) => k,
            None => {
                return Some(Err(CpacError::InvalidFrame("invalid UTF-8 key".to_string())));
            },
        };
        let l0 = k0 + key_len;
        if d.len() - l0 < 4 {
            return Some(Err(CpacError::InvalidFrame("truncated payload length".to_string())));
        }
        let plen = read_u32(d, l0) as usize;
        let q0 = l0 + 4;
        if d.len() - q0 < plen {
            return Some(Err(CpacError::InvalidFrame("truncated payload".to_string())));
        }
        let payload = slice_to_vec(d, q0, q0 + plen);
        let c0 = q0 + plen;
        if d.len() - c0 < 4 {
            return Some(Err(CpacError::InvalidFrame("truncated CRC".to_string())));
        }
        let stored_crc = read_u32(d, c0);
        let mut crc_data: Vec<u8> = Vec::new();
        push_all(&mut crc_data, key_buf.as_slice());
        push_all(&mut crc_data, payload.as_slice());
        let computed_crc = crc32c(crc_data.as_slice());
        if stored_crc != computed_crc {
            return Some(Err(CpacError::InvalidFrame("CRC mismatch".to_string())));
        }
        proof {
            vstd::utf8::decode_utf8_encode_utf8(key_buf@);
        }
        self.pos = c0 + 4;
        Some(Ok(WalEntry { seq, timestamp: ts, key, payload }))
    }

    /// Reads all valid entries, stopping at the first corrupt or truncated one.
    pub fn recover_all(&mut self) -> (r: Vec<WalEntry>)
        ensures
            entries_view(r@) == wal_recover(old(self)@.0, old(self)@.1),
            final(self)@.0 == old(self)@.0,
            final(self)@.2 == old(self)@.2,
    {
        let mut entries: Vec<WalEntry> = Vec::new();
        let ghost d = self@.0;
        let ghost p0 = self@.1;
        assert(entries_view(entries@) + wal_recover(d, p0) =~= wal_recover(d, p0));
        loop
            invariant
                self@.0 == d,
                self@.2 == old(self)@.2,
                d == old(self)@.0,
                p0 == old(self)@.1,
                entries_view(entries@) + wal_recover(d, self@.1) == wal_recover(d, p0),
            ensures
                entries_view(entries@) == wal_recover(d, p0),
                self@.0 == d,
                self@.2 == old(self)@.2,
            decreases d.len() - self@.1,
        {
            let ghost p = self@.1;
            match self.next_entry() {
                Some(Ok(entry)) => {
                    proof {
                        let e = entry.view_bytes();
                        assert(wal_recover(d, p) == seq![e] + wal_recover(d, self@.1));
                        assert(entries_view(entries@.push(entry)) =~= entries_view(entries@).push(e));
                        assert(entries_view(entries@).push(e) + wal_recover(d, self@.1) =~= entries_view(entries@) + (seq![e] + wal_recover(d, self@.1)));
                    }
                    entries.push(entry);
                },
                _ => {
                    proof {
                        assert(wal_recover(d, p) == Seq::<EntryView>::empty());
                        assert(entries_view(entries@) + wal_recover(d, p) =~= entries_view(entries@));
                    }
                    break;
                },
            }
        }
        entries
    }

    /// Creation timestamp (Unix microseconds).
    pub fn created_timestamp(&self) -> (r: u64)
        ensures
            r == self@.2,
    {
        self.created_timestamp
    }
}


/// Encoding of a sequence of entries, one after the other.
pub open spec fn entries_bytes(es: Seq<EntryView>) -> Seq<u8>
    decreases es.len(),
{
    if es.len() == 0 {
        Seq::empty()
    } else {
        entries_bytes(es.drop_last()) + entry_bytes(
            es.last().0,
            es.last().1,
            es.last().2,
            es.last().3,
        )
    }
}

/// An entry that the format can hold: a UTF-8 key whose length fits 16 bits
/// and a payload whose length fits 32 bits.
pub open spec fn entry_fits(e: EntryView) -> bool {
    valid_utf8(e.2) && e.2.len() <= u16::MAX && e.3.len() <= u32::MAX
}

proof fn lemma_sub_of_sub(d: Seq<u8>, p: int, eb: Seq<u8>, i: int, j: int)
    requires
        0 <= p,
        p + eb.len() <= d.len(),
        d.subrange(p, p + eb.len()) == eb,
        0 <= i <= j <= eb.len(),
    ensures
        d.subrange(p + i, p + j) == eb.subrange(i, j),
{
    assert(d.subrange(p + i, p + j) =~= eb.subrange(i, j));
}

/// Reading an encoded entry gives back the entry, and the next entry starts
/// right after its encoding.
#[verifier::rlimit(80)]
pub proof fn lemma_wal_next_encoded(d: Seq<u8>, p: int, e: EntryView)
    requires
        entry_fits(e),
        0 <= p,
        p + entry_bytes(e.0, e.1, e.2, e.3).len() <= d.len(),
        d.subrange(p, p + entry_bytes(e.0, e.1, e.2, e.3).len()) == entry_bytes(e.0, e.1, e.2, e.3),
    ensures
        wal_next(d, p) == Some(Ok::<EntryView, ()>(e)),
        wal_next_pos(d, p) == p + entry_bytes(e.0, e.1, e.2, e.3).len(),
        entry_bytes(e.0, e.1, e.2, e.3).len() == 27 + e.2.len() + e.3.len(),
{
    let eb = entry_bytes(e.0, e.1, e.2, e.3);
    let kl = e.2.len() as int;
    let pl = e.3.len() as int;
    let crc = crc32c_spec(e.2 + e.3);
    let p1 = seq![0xE1u8] + le64(e.0);
    let p2 = p1 + le64(e.1);
    let p3 = p2 + le16(kl as u16);
    let p4 = p3 + e.2;
    let p5 = p4 + le32(pl as u32);
    let p6 = p5 + e.3;
    assert(eb == p6 + le32(crc));
    assert(eb.len() == 27 + kl + pl);
    assert(eb.subrange(0, 1) =~= seq![0xE1u8]);
    assert(eb.subrange(1, 9) =~= le64(e.0));
    assert(eb.subrange(9, 17) =~= le64(e.1));
    assert(eb.subrange(17, 19) =~= le16(kl as u16));
    assert(eb.subrange(19, 19 + kl) =~= e.2);
    assert(eb.subrange(19 + kl, 23 + kl) =~= le32(pl as u32));
    assert(eb.subrange(23 + kl, 23 + kl + pl) =~= e.3);
    assert(eb.subrange(23 + kl + pl, 27 + kl + pl) =~= le32(crc));
    lemma_sub_of_sub(d, p, eb, 0, 1);
    lemma_sub_of_sub(d, p, eb, 1, 9);
    lemma_sub_of_sub(d, p, eb, 9, 17);
    lemma_sub_of_sub(d, p, eb, 17, 19);
    lemma_sub_of_sub(d, p, eb, 19, 19 + kl);
    lemma_sub_of_sub(d, p, eb, 19 + kl, 23 + kl);
    lemma_sub_of_sub(d, p, eb, 23 + kl, 23 + kl + pl);
    lemma_sub_of_sub(d, p, eb, 23 + kl + pl, 27 + kl + pl);
    assert(d[p] == d.subrange(p, p + 1)[0]);
    lemma_le64_roundtrip(e.0, d, p + 1);
    lemma_le64_roundtrip(e.1, d, p + 9);
    lemma_le16_roundtrip(kl as u16, d, p + 17);
    lemma_le32_roundtrip(pl as u32, d, p + 19 + kl);
    lemma_le32_roundtrip(crc, d, p + 23 + kl + pl);
}

proof fn lemma_entries_bytes_prefix(es: Seq<EntryView>, i: int)
    requires
        0 <= i <= es.len(),
    ensures
        entries_bytes(es.subrange(0, i)).len() <= entries_bytes(es).len(),
        entries_bytes(es) == entries_bytes(es.subrange(0, i)) + entries_bytes(es).subrange(
            entries_bytes(es.subrange(0, i)).len() as int,
            entries_bytes(es).len() as int,
        ),
    decreases es.len() - i,
{
    if i == es.len() {
        assert(es.subrange(0, i) =~= es);
        assert(entries_bytes(es).subrange(
            entries_bytes(es).len() as int,
            entries_bytes(es).len() as int,
        ) =~= Seq::<u8>::empty());
        assert(entries_bytes(es) + Seq::<u8>::empty() =~= entries_bytes(es));
    } else {
        lemma_entries_bytes_prefix(es.drop_last(), i);
        assert(es.drop_last().subrange(0, i) =~= es.subrange(0, i));
        let a = entries_bytes(es.subrange(0, i));
        let b = entries_bytes(es.drop_last());
        let c = entries_bytes(es);
        let l = es.last();
        assert(c == b + entry_bytes(l.0, l.1, l.2, l.3));
        assert(c.subrange(a.len() as int, c.len() as int) =~= b.subrange(a.len() as int, b.len() as int)
            + entry_bytes(l.0, l.1, l.2, l.3));
        assert(c =~= a + c.subrange(a.len() as int, c.len() as int));
    }
}

proof fn lemma_wal_recover_from(d: Seq<u8>, base: int, es: Seq<EntryView>, i: int)
    requires
        forall|k: int| 0 <= k < es.len() ==> #[trigger] entry_fits(es[k]),
        0 <= base,
        0 <= i <= es.len(),
        base + entries_bytes(es).len() <= d.len(),
        d.subrange(base, base + entries_bytes(es).len()) == entries_bytes(es),
    ensures
        wal_recover(d, base + entries_bytes(es.subrange(0, i)).len()) == es.subrange(i, es.len() as int)
            + wal_recover(d, base + entries_bytes(es).len()),
    decreases es.len() - i,
{
    let all = entries_bytes(es);
    let end = base + all.len();
    if i == es.len() {
        assert(es.subrange(0, i) =~= es);
        assert(es.subrange(i, es.len() as int) + wal_recover(d, end) =~= wal_recover(d, end));
    } else {
        lemma_entries_bytes_prefix(es, i);
        lemma_entries_bytes_prefix(es, i + 1);
        let a = entries_bytes(es.subrange(0, i));
        let a2 = entries_bytes(es.subrange(0, i + 1));
        let e = es[i];
        assert(es.subrange(0, i + 1).drop_last() =~= es.subrange(0, i));
        assert(es.subrange(0, i + 1).last() == e);
        let eb = entry_bytes(e.0, e.1, e.2, e.3);
        assert(a2 == a + eb);
        let p = base + a.len();
        assert(all.subrange(a.len() as int, a2.len() as int) =~= eb) by {
            assert(all =~= a2 + all.subrange(a2.len() as int, all.len() as int));
        }
        assert(d.subrange(p, p + eb.len()) =~= eb) by {
            assert(d.subrange(p, p + eb.len()) =~= all.subrange(a.len() as int, a2.len() as int));
        }
        assert(entry_fits(e));
        lemma_wal_next_encoded(d, p, e);
        lemma_wal_recover_from(d, base, es, i + 1);
        assert(wal_recover(d, p) == seq![e] + wal_recover(d, p + eb.len()));
        assert(es.subrange(i, es.len() as int) =~= seq![e] + es.subrange(i + 1, es.len() as int));
    }
}

/// A journal holds exactly what was appended: scanning the bytes
/// `prefix ++ encodings of es ++ tail` from the end of `prefix` recovers the
/// entries `es` in order, followed by whatever the tail holds.
pub proof fn lemma_wal_recover_appended(prefix: Seq<u8>, es: Seq<EntryView>, tail: Seq<u8>)
    requires
        forall|k: int| 0 <= k < es.len() ==> #[trigger] entry_fits(es[k]),
    ensures
        wal_recover(prefix + entries_bytes(es) + tail, prefix.len() as int) == es + wal_recover(
            prefix + entries_bytes(es) + tail,
            (prefix.len() + entries_bytes(es).len()) as int,
        ),
{
    let d = prefix + entries_bytes(es) + tail;
    assert(d.subrange(prefix.len() as int, (prefix.len() + entries_bytes(es).len()) as int) =~= entries_bytes(es));
    lemma_wal_recover_from(d, prefix.len() as int, es, 0);
    assert(es.subrange(0, 0) =~= Seq::<EntryView>::empty());
    assert(entries_bytes(Seq::<EntryView>::empty()).len() == 0);
    assert(es.subrange(0, es.len() as int) =~= es);
}

/// Crash recovery: when the journal ends in a torn write (a proper prefix of
/// an entry's encoding), recovery yields exactly the entries before it.
pub proof fn lemma_wal_recover_torn(prefix: Seq<u8>, es: Seq<EntryView>, torn: EntryView, cut: int)
    requires
        forall|k: int| 0 <= k < es.len() ==> #[trigger] entry_fits(es[k]),
        entry_fits(torn),
        0 <= cut < entry_bytes(torn.0, torn.1, torn.2, torn.3).len(),
    ensures
        wal_recover(
            prefix + entries_bytes(es) + entry_bytes(torn.0, torn.1, torn.2, torn.3).subrange(0, cut),
            prefix.len() as int,
        ) == es,
{
    let t = entry_bytes(torn.0, torn.1, torn.2, torn.3).subrange(0, cut);
    lemma_wal_recover_appended(prefix, es, t);
    let d = prefix + entries_bytes(es) + t;
    let p = (prefix.len() + entries_bytes(es).len()) as int;
    assert(d.len() == p + cut);
    assert(d.subrange(p, p + cut) =~= t);
    lemma_wal_torn_entry(d, p, torn, cut);
    assert(es + Seq::<EntryView>::empty() =~= es);
}

proof fn lemma_wal_torn_entry(d: Seq<u8>, p: int, e: EntryView, cut: int)
    requires
        entry_fits(e),
        0 <= p,
        0 <= cut < entry_bytes(e.0, e.1, e.2, e.3).len(),
        d.len() == p + cut,
        d.subrange(p, p + cut) == entry_bytes(e.0, e.1, e.2, e.3).subrange(0, cut),
    ensures
        wal_recover(d, p) == Seq::<EntryView>::empty(),
{
    let eb = entry_bytes(e.0, e.1, e.2, e.3);
    if cut > 0 {
        match wal_next(d, p) {
            Some(Ok(ev)) => {
                let kl = get16(d, p + 17) as int;
                let pl = get32(d, p + 19 + kl) as int;
                // a complete entry needs 27 + kl + pl bytes, which would reach past `d`
                let q0 = p + 19 + kl + 4;
                assert(q0 + pl + 4 <= d.len());
                assert(wal_next_pos(d, p) == q0 + pl + 4);
                assert(wal_recover(d, p) == seq![ev] + wal_recover(d, wal_next_pos(d, p)));
                lemma_torn_header_lengths(d, p, e, cut);
                assert(false);
            },
            _ => {},
        }
    }
}

#[verifier::rlimit(60)]
proof fn lemma_torn_header_lengths(d: Seq<u8>, p: int, e: EntryView, cut: int)
    requires
        entry_fits(e),
        0 <= p,
        0 < cut < entry_bytes(e.0, e.1, e.2, e.3).len(),
        d.len() == p + cut,
        d.subrange(p, p + cut) == entry_bytes(e.0, e.1, e.2, e.3).subrange(0, cut),
        p + 19 <= d.len(),
        p + 19 + get16(d, p + 17) as int + 4 <= d.len(),
    ensures
        p + 27 + get16(d, p + 17) as int + get32(d, p + 19 + get16(d, p + 17) as int) as int > d.len(),
{
    let eb = entry_bytes(e.0, e.1, e.2, e.3);
    let kl = e.2.len() as int;
    let pl = e.3.len() as int;
    let ebc = eb.subrange(0, cut);
    assert(eb.len() == 27 + kl + pl);
    assert(eb.subrange(17, 19) =~= le16(kl as u16));
    lemma_sub_of_sub(d, p, ebc, 17, 19);
    assert(ebc.subrange(17, 19) =~= eb.subrange(17, 19));
    lemma_le16_roundtrip(kl as u16, d, p + 17);
    assert(get16(d, p + 17) as int == kl);
    assert(eb.subrange(19 + kl, 23 + kl) =~= le32(pl as u32));
    lemma_sub_of_sub(d, p, ebc, 19 + kl, 23 + kl);
    assert(ebc.subrange(19 + kl, 23 + kl) =~= eb.subrange(19 + kl, 23 + kl));
    lemma_le32_roundtrip(pl as u32, d, p + 19 + kl);
}


/// A journal written by `WalWriter` opens: its header is accepted and carries
/// the creation timestamp, and entries start right after it.
pub proof fn lemma_wal_header_opens(ts: u64, rest: Seq<u8>)
    ensures
        wal_header_ok(wal_header(ts) + rest),
        get64(wal_header(ts) + rest, 5) == ts,
        wal_header(ts).len() == WAL_HEADER_SIZE,
{
    let d = wal_header(ts) + rest;
    assert(d.subrange(5, 13) =~= le64(ts));
    lemma_le64_roundtrip(ts, d, 5);
}

/// A writer's state after the header stamped `ts` and the entries `es` were
/// written after `prefix`: the bytes are the header and the entries' encodings,
/// the next sequence number and the count of entries written are both the
/// number of entries, and entry `i` has sequence number `i`.
pub open spec fn journal_state(v: (Seq<u8>, u64, u64), prefix: Seq<u8>, ts: u64, es: Seq<EntryView>) -> bool {
    &&& v.0 == prefix + wal_header(ts) + entries_bytes(es)
    &&& v.1 == es.len()
    &&& v.2 == es.len()
    &&& forall|i: int| 0 <= i < es.len() ==> (#[trigger] es[i]).0 == i
}

/// A newly created writer holds the header and no entries.
pub proof fn lemma_journal_created(prefix: Seq<u8>, ts: u64)
    ensures
        journal_state((prefix + wal_header(ts), 0u64, 0u64), prefix, ts, Seq::<EntryView>::empty()),
{
    assert(entries_bytes(Seq::<EntryView>::empty()) =~= Seq::<u8>::empty());
    assert(prefix + wal_header(ts) + Seq::<u8>::empty() =~= prefix + wal_header(ts));
}

/// Each append adds one entry, numbered by the count before it, and counts
/// it: over a series of appends the count is the number of appends and the
/// entries are numbered 0, 1, 2, ...
pub proof fn lemma_journal_append(v: (Seq<u8>, u64, u64), prefix: Seq<u8>, ts: u64, es: Seq<EntryView>, ts2: u64, key: Seq<u8>, payload: Seq<u8>)
    requires
        journal_state(v, prefix, ts, es),
        v.1 < u64::MAX,
    ensures
        journal_state(
            (v.0 + entry_bytes(v.1, ts2, key, payload), (v.1 + 1) as u64, (v.2 + 1) as u64),
            prefix,
            ts,
            es.push((v.1, ts2, key, payload)),
        ),
{
    let es2 = es.push((v.1, ts2, key, payload));
    assert(es2.drop_last() =~= es);
    assert(v.0 + entry_bytes(v.1, ts2, key, payload) =~= prefix + wal_header(ts) + entries_bytes(es2));
    assert forall|i: int| 0 <= i < es2.len() implies (#[trigger] es2[i]).0 == i by {
        if i < es.len() {
            assert(es2[i] == es[i]);
        }
    }
}

/// Reading back a journal: the bytes of a writer that wrote the entries `es`
/// open, and recovery from the header's end gives `es` in order, followed by
/// what the bytes after them hold; bytes after them that do not start a valid
/// entry (a torn write, a bad entry magic, a bad CRC) leave the result `es`.
pub proof fn lemma_journal_recovers(ts: u64, es: Seq<EntryView>, tail: Seq<u8>)
    requires
        forall|k: int| 0 <= k < es.len() ==> #[trigger] entry_fits(es[k]),
    ensures
        ({
            let d = wal_header(ts) + entries_bytes(es) + tail;
            let end = (WAL_HEADER_SIZE + entries_bytes(es).len()) as int;
            &&& wal_header_ok(d)
            &&& get64(d, 5) == ts
            &&& wal_recover(d, WAL_HEADER_SIZE as int) == es + wal_recover(d, end)
            &&& !(wal_next(d, end) is Some && wal_next(d, end)->0 is Ok) ==> wal_recover(d, WAL_HEADER_SIZE as int) == es
        }),
{
    let d = wal_header(ts) + entries_bytes(es) + tail;
    let end = (WAL_HEADER_SIZE + entries_bytes(es).len()) as int;
    lemma_wal_header_opens(ts, entries_bytes(es) + tail);
    assert(wal_header(ts) + (entries_bytes(es) + tail) =~= d);
    lemma_wal_recover_appended(wal_header(ts), es, tail);
    if !(wal_next(d, end) is Some && wal_next(d, end)->0 is Ok) {
        assert(wal_recover(d, end) =~= Seq::<EntryView>::empty());
        assert(es + Seq::<EntryView>::empty() =~= es);
    }
}

/// Round trip of a whole journal: the bytes of a writer created with
/// timestamp `ts` that appended the entries `es` open, and recovery gives `es`
/// back, numbered 0, 1, 2, ...
pub proof fn lemma_journal_roundtrip(v: (Seq<u8>, u64, u64), ts: u64, es: Seq<EntryView>)
    requires
        journal_state(v, Seq::<u8>::empty(), ts, es),
        forall|k: int| 0 <= k < es.len() ==> #[trigger] entry_fits(es[k]),
    ensures
        wal_header_ok(v.0),
        get64(v.0, 5) == ts,
        wal_recover(v.0, WAL_HEADER_SIZE as int) == es,
        forall|i: int| 0 <= i < es.len() ==> (#[trigger] es[i]).0 == i,
{
    let d = wal_header(ts) + entries_bytes(es) + Seq::<u8>::empty();
    assert(v.0 =~= d);
    lemma_journal_recovers(ts, es, Seq::<u8>::empty());
    let end = (WAL_HEADER_SIZE + entries_bytes(es).len()) as int;
    assert(d.len() == end);
}

} // verus!
