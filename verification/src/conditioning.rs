//! Entropy conditioning: byte classification and stream partitioning.
//!
//! Data is split into four entropy-homogeneous streams (structural bytes,
//! numeric bytes, text and high-entropy bytes) plus a run-length position map
//! from which the original byte order is restored.

use vstd::prelude::*;
use crate::bytes::{le32, get32, push_u32, read_u32, push_all, slice_to_vec, lemma_le32_at};
use crate::error::CpacError;

verus! {

/// Byte class for entropy conditioning.
#[derive(Clone, Copy, Debug, PartialEq, Eq, Hash)]
pub enum ByteClass {
    /// Structural delimiters (`{}[]()<>,:;=&|!@#`) and whitespace outside
    /// strings.
    Delimiter,
    /// Digits and the sign, point and exponent characters next to them.
    Numeric,
    /// Printable ASCII not classified as structural or numeric.
    Text,
    /// Non-ASCII, control characters, binary data.
    HighEntropy,
}

impl ByteClass {
    /// Number of distinct classes.
    pub const COUNT: usize = 4;

    /// The discriminant byte of the class.
    pub open spec fn code(self) -> u8 {
        match self {
            ByteClass::Delimiter => 0,
            ByteClass::Numeric => 1,
            ByteClass::Text => 2,
            ByteClass::HighEntropy => 3,
        }
    }

    /// The discriminant byte of the class.
    pub fn id(self) -> (r: u8)
        ensures
            r == self.code(),
    {
        match self {
            ByteClass::Delimiter => 0,
            ByteClass::Numeric => 1,
            ByteClass::Text => 2,
            ByteClass::HighEntropy => 3,
        }
    }

    /// Converts from a discriminant byte.
    pub fn from_u8(b: u8) -> (r: Option<ByteClass>)
        ensures
            b < 4 <==> r is Some,
            r matches Some(c) ==> c.code() == b,
    {
        match b {
            0 => Some(ByteClass::Delimiter),
            1 => Some(ByteClass::Numeric),
            2 => Some(ByteClass::Text),
            3 => Some(ByteClass::HighEntropy),
            _ => None,
        }
    }
}

pub open spec fn is_digit(b: u8) -> bool {
    0x30 <= b <= 0x39
}

pub open spec fn is_hexdigit(b: u8) -> bool {
    is_digit(b) || (0x41 <= b <= 0x46) || (0x61 <= b <= 0x66)
}

/// Structural characters: `{}[]()<>,:;=&|!@#` and newline, carriage return,
/// tab.
pub open spec fn is_structural_char(b: u8) -> bool {
    b == 0x7b || b == 0x7d || b == 0x5b || b == 0x5d || b == 0x28 || b == 0x29 || b == 0x3c || b
        == 0x3e || b == 0x2c || b == 0x3a || b == 0x3b || b == 0x3d || b == 0x26 || b == 0x7c || b
        == 0x21 || b == 0x40 || b == 0x23 || b == 0x0a || b == 0x0d || b == 0x09
}

/// Class of byte `b` when `in_string` says whether it stands inside a quoted
/// string and `prev` is the byte before it.
pub open spec fn byte_class(b: u8, in_string: bool, prev: u8) -> ByteClass {
    if in_string {
        if b < 0x80 {
            ByteClass::Text
        } else {
            ByteClass::HighEntropy
        }
    } else if b >= 0x80 || (b < 0x20 && b != 0x0a && b != 0x0d && b != 0x09) {
        ByteClass::HighEntropy
    } else if is_structural_char(b) {
        ByteClass::Delimiter
    } else if is_digit(b) {
        ByteClass::Numeric
    } else if (b == 0x2e || b == 0x2b || b == 0x2d || b == 0x65 || b == 0x45) && is_digit(prev) {
        ByteClass::Numeric
    } else if (b == 0x78 || b == 0x58) && prev == 0x30 {
        ByteClass::Numeric
    } else if is_hexdigit(b) && !is_digit(b) && is_hexdigit(prev) {
        ByteClass::Numeric
    } else if b == 0x20 {
        ByteClass::Delimiter
    } else {
        ByteClass::Text
    }
}

fn classify_byte(b: u8, in_string: bool, prev: u8) -> (r: ByteClass)
    ensures
        r == byte_class(b, in_string, prev),
{
    if in_string {
        return if b < 0x80 {
            ByteClass::Text
        } else {
            ByteClass::HighEntropy
        };
    }
    if b >= 0x80 || (b < 0x20 && b != 0x0a && b != 0x0d && b != 0x09) {
        return ByteClass::HighEntropy;
    }
    if b == 0x7b || b == 0x7d || b == 0x5b || b == 0x5d || b == 0x28 || b == 0x29 || b == 0x3c
        || b == 0x3e || b == 0x2c || b == 0x3a || b == 0x3b || b == 0x3d || b == 0x26 || b == 0x7c
        || b == 0x21 || b == 0x40 || b == 0x23 || b == 0x0a || b == 0x0d || b == 0x09 {
        return ByteClass::Delimiter;
    }
    let b_digit = 0x30 <= b && b <= 0x39;
    let p_digit = 0x30 <= prev && prev <= 0x39;
    if b_digit {
        return ByteClass::Numeric;
    }
    if (b == 0x2e || b == 0x2b || b == 0x2d || b == 0x65 || b == 0x45) && p_digit {
        return ByteClass::Numeric;
    }
    if (b == 0x78 || b == 0x58) && prev == 0x30 {
        return ByteClass::Numeric;
    }
    let b_hex = b_digit || (0x41 <= b && b <= 0x46) || (0x61 <= b && b <= 0x66);
    let p_hex = p_digit || (0x41 <= prev && prev <= 0x46) || (0x61 <= prev && prev <= 0x66);
    if b_hex && !b_digit && p_hex {
        return ByteClass::Numeric;
    }
    if b == 0x20 {
        return ByteClass::Delimiter;
    }
    ByteClass::Text
}

/// Scanner state before a byte: (inside a string, previous byte, next byte escaped).
pub open spec fn scan_step(st: (bool, u8, bool), b: u8) -> (bool, u8, bool) {
    if st.2 {
        (st.0, b, false)
    } else if b == 0x5c && st.0 {
        (true, b, true)
    } else {
        (if b == 0x22 {
            !st.0
        } else {
            st.0
        }, b, false)
    }
}

/// Scanner state after the first `n` bytes of `data`.
pub open spec fn scan_state(data: Seq<u8>, n: int) -> (bool, u8, bool)
    decreases n,
{
    if n <= 0 {
        (false, 0u8, false)
    } else {
        scan_step(scan_state(data, n - 1), data[n - 1])
    }
}

/// Class emitted for byte `b` read in scanner state `st`.
pub open spec fn emit_class(st: (bool, u8, bool), b: u8) -> ByteClass {
    if st.2 {
        if st.0 {
            ByteClass::Text
        } else {
            byte_class(b, st.0, st.1)
        }
    } else if b == 0x5c && st.0 {
        ByteClass::Text
    } else {
        byte_class(
            b,
            if b == 0x22 {
                !st.0
            } else {
                st.0
            },
            st.1,
        )
    }
}

/// The class of every byte of `data`, in order.
pub open spec fn classify_spec(data: Seq<u8>) -> Seq<ByteClass> {
    Seq::new(data.len(), |i: int| emit_class(scan_state(data, i), data[i]))
}

/// The scanner remembers the byte before, and only escapes inside a string.
proof fn lemma_scan_state_facts(data: Seq<u8>, n: int)
    requires
        0 <= n <= data.len(),
    ensures
        scan_state(data, n).2 ==> scan_state(data, n).0,
        n > 0 ==> scan_state(data, n).1 == data[n - 1],
    decreases n,
{
    if n > 0 {
        lemma_scan_state_facts(data, n - 1);
    }
}

/// Numbers outside quoted strings go to the numeric stream: an ASCII digit,
/// and a decimal point, sign or exponent marker (`.`, `+`, `-`, `e`, `E`)
/// right after a digit, are `Numeric`.
pub proof fn lemma_numbers_are_numeric(data: Seq<u8>, i: int)
    requires
        0 <= i < data.len(),
        !scan_state(data, i).0,
        (0x30 <= data[i] <= 0x39) || (i > 0 && 0x30 <= data[i - 1] <= 0x39 && (data[i] == 0x2e || data[i] == 0x2b
            || data[i] == 0x2d || data[i] == 0x65 || data[i] == 0x45)),
    ensures
        classify_spec(data)[i] == ByteClass::Numeric,
{
    lemma_scan_state_facts(data, i);
}

/// Classifies all bytes of `data`, returning one class per byte.
pub fn classify(data: &[u8]) -> (r: Vec<ByteClass>)
    ensures
        r@ == classify_spec(data@),
{
    let mut classes: Vec<ByteClass> = Vec::new();
    let mut in_string = false;
    let mut prev: u8 = 0;
    let mut escape_next = false;
    let mut i: usize = 0;
    while i < data.len()
        invariant
            i <= data.len(),
            (in_string, prev, escape_next) == scan_state(data@, i as int),
            classes@.len() == i,
            forall|j: int| 0 <= j < i ==> classes@[j] == classify_spec(data@)[j],
        decreases data.len() - i,
    {
        let b = data[i];
        if escape_next {
            escape_next = false;
            classes.push(
                if in_string {
                    ByteClass::Text
                } else {
                    classify_byte(b, in_string, prev)
                },
            );
        } else if b == 0x5c && in_string {
            escape_next = true;
            classes.push(ByteClass::Text);
        } else {
            if b == 0x22 {
                in_string = !in_string;
            }
            let c = classify_byte(b, in_string, prev);
            classes.push(c);
        }
        prev = b;
        i = i + 1;
    }
    classes
}


/// Result of stream partitioning.
#[derive(Clone, Debug)]
pub struct PartitionResult {
    /// Streams in class order (delimiter, numeric, text, high-entropy); empty
    /// streams are kept so that indices stay stable.
    pub streams: [Vec<u8>; 4],
    /// Run-length position map: `(class_id, run_length)` pairs in input order.
    pub position_map: Vec<(u8, u32)>,
}

/// The four streams of a partition result as sequences.
pub open spec fn streams_view(a: [Vec<u8>; 4]) -> Seq<Seq<u8>> {
    seq![a[0]@, a[1]@, a[2]@, a[3]@]
}

/// Run lengths of a position map as mathematical integers.
pub open spec fn runs_view(pm: Seq<(u8, u32)>) -> Seq<(u8, int)> {
    Seq::new(pm.len(), |k: int| (pm[k].0, pm[k].1 as int))
}

/// Streams after partitioning the first `n` bytes of `data` with classes `cls`.
pub open spec fn part_streams(data: Seq<u8>, cls: Seq<ByteClass>, n: int) -> Seq<Seq<u8>>
    decreases n,
{
    if n <= 0 {
        seq![Seq::<u8>::empty(), Seq::<u8>::empty(), Seq::<u8>::empty(), Seq::<u8>::empty()]
    } else {
        let s = part_streams(data, cls, n - 1);
        let c = cls[n - 1].code() as int;
        s.update(c, s[c].push(data[n - 1]))
    }
}

/// Run-length encoding of the first `n` classes of `cls`.
pub open spec fn part_runs(cls: Seq<ByteClass>, n: int) -> Seq<(u8, int)>
    decreases n,
{
    if n <= 0 {
        Seq::empty()
    } else {
        let r = part_runs(cls, n - 1);
        let c = cls[n - 1].code();
        if r.len() > 0 && r.last().0 == c {
            r.update(r.len() - 1, (c, r.last().1 + 1))
        } else {
            r.push((c, 1int))
        }
    }
}

/// Every run of the position map of `data` fits in a `u32`.
pub open spec fn runs_fit(data: Seq<u8>) -> bool {
    let r = part_runs(classify_spec(data), data.len() as int);
    forall|k: int| 0 <= k < r.len() ==> #[trigger] r[k].1 <= u32::MAX
}

/// Applies the first `k` runs of `runs` to `streams`: the bytes produced so far
/// and how far each stream has been read, or `None` when a run names an
/// unknown class or reads past its stream.
pub open spec fn merge_runs(streams: Seq<Seq<u8>>, runs: Seq<(u8, int)>, k: int) -> Option<
    (Seq<u8>, Seq<int>),
>
    decreases k,
{
    if k <= 0 {
        Some((Seq::<u8>::empty(), seq![0int, 0int, 0int, 0int]))
    } else {
        match merge_runs(streams, runs, k - 1) {
            None => None,
            Some(st) => {
                let c = runs[k - 1].0 as int;
                let len = runs[k - 1].1;
                if c >= 4 || len < 0 {
                    None
                } else if st.1[c] + len > streams[c].len() {
                    None
                } else {
                    Some(
                        (
                            st.0 + streams[c].subrange(st.1[c], st.1[c] + len),
                            st.1.update(c, st.1[c] + len),
                        ),
                    )
                }
            },
        }
    }
}

/// The bytes that merging `runs` over `streams` restores, if it succeeds.
pub open spec fn merge_spec(streams: Seq<Seq<u8>>, runs: Seq<(u8, int)>) -> Option<Seq<u8>> {
    match merge_runs(streams, runs, runs.len() as int) {
        Some(st) => Some(st.0),
        None => None,
    }
}

proof fn lemma_merge_runs_prefix(streams: Seq<Seq<u8>>, r1: Seq<(u8, int)>, r2: Seq<(u8, int)>, k: int)
    requires
        0 <= k <= r1.len(),
        k <= r2.len(),
        forall|j: int| 0 <= j < k ==> r1[j] == r2[j],
    ensures
        merge_runs(streams, r1, k) == merge_runs(streams, r2, k),
    decreases k,
{
    if k > 0 {
        lemma_merge_runs_prefix(streams, r1, r2, k - 1);
    }
}

proof fn lemma_merge_offsets_len(streams: Seq<Seq<u8>>, runs: Seq<(u8, int)>, k: int)
    requires
        streams.len() == 4,
    ensures
        merge_runs(streams, runs, k) matches Some(st) ==> st.1.len() == 4 && forall|c: int|
            0 <= c < 4 ==> 0 <= #[trigger] st.1[c] <= streams[c].len(),
    decreases k,
{
    if k > 0 {
        lemma_merge_offsets_len(streams, runs, k - 1);
    }
}

proof fn lemma_part_streams_len(data: Seq<u8>, cls: Seq<ByteClass>, n: int)
    ensures
        part_streams(data, cls, n).len() == 4,
    decreases n,
{
    if n > 0 {
        lemma_part_streams_len(data, cls, n - 1);
    }
}

proof fn lemma_part_streams_prefix(data: Seq<u8>, cls: Seq<ByteClass>, n: int, m: int)
    requires
        0 <= n <= m,
    ensures
        forall|c: int|
            0 <= c < 4 ==> part_streams(data, cls, n)[c].len() <= part_streams(data, cls, m)[c].len()
                && #[trigger] part_streams(data, cls, n)[c] == part_streams(data, cls, m)[c].subrange(
                0,
                part_streams(data, cls, n)[c].len() as int,
            ),
    decreases m - n,
{
    lemma_part_streams_len(data, cls, n);
    lemma_part_streams_len(data, cls, m);
    if n < m {
        lemma_part_streams_prefix(data, cls, n + 1, m);
        lemma_part_streams_len(data, cls, n + 1);
        assert forall|c: int| 0 <= c < 4 implies part_streams(data, cls, n)[c].len()
            <= part_streams(data, cls, m)[c].len() && #[trigger] part_streams(data, cls, n)[c]
            == part_streams(data, cls, m)[c].subrange(
            0,
            part_streams(data, cls, n)[c].len() as int,
        ) by {
            let a = part_streams(data, cls, n)[c];
            let b = part_streams(data, cls, n + 1)[c];
            let z = part_streams(data, cls, m)[c];
            assert(b.subrange(0, a.len() as int) == a);
            assert(z.subrange(0, a.len() as int) == z.subrange(0, b.len() as int).subrange(
                0,
                a.len() as int,
            ));
        }
    } else {
        assert forall|c: int| 0 <= c < 4 implies #[trigger] part_streams(data, cls, n)[c]
            == part_streams(data, cls, m)[c].subrange(
            0,
            part_streams(data, cls, n)[c].len() as int,
        ) by {
            let a = part_streams(data, cls, n)[c];
            assert(a.subrange(0, a.len() as int) == a);
        }
    }
}

/// Read counts after partitioning the first `n` bytes.
pub open spec fn part_counts(data: Seq<u8>, cls: Seq<ByteClass>, n: int) -> Seq<int> {
    let s = part_streams(data, cls, n);
    seq![s[0].len() as int, s[1].len() as int, s[2].len() as int, s[3].len() as int]
}

proof fn lemma_merge_partition_prefix(data: Seq<u8>, cls: Seq<ByteClass>, n: int)
    requires
        cls.len() == data.len(),
        0 <= n <= data.len(),
    ensures
        merge_runs(
            part_streams(data, cls, data.len() as int),
            part_runs(cls, n),
            part_runs(cls, n).len() as int,
        ) == Some((data.subrange(0, n), part_counts(data, cls, n))),
        n > 0 ==> part_runs(cls, n).len() > 0,
    decreases n,
{
    let full = part_streams(data, cls, data.len() as int);
    lemma_part_streams_len(data, cls, data.len() as int);
    if n == 0 {
        assert(data.subrange(0, 0) == Seq::<u8>::empty());
        assert(part_counts(data, cls, 0) == seq![0int, 0int, 0int, 0int]);
    } else {
        lemma_merge_partition_prefix(data, cls, n - 1);
        lemma_part_streams_prefix(data, cls, n, data.len() as int);
        lemma_part_streams_prefix(data, cls, n - 1, n);
        lemma_part_streams_len(data, cls, n);
        lemma_part_streams_len(data, cls, n - 1);
        let r = part_runs(cls, n - 1);
        let r2 = part_runs(cls, n);
        let c = cls[n - 1].code();
        let ci = c as int;
        let b = data[n - 1];
        let cnt = part_counts(data, cls, n - 1);
        let cnt2 = part_counts(data, cls, n);
        let pn = part_streams(data, cls, n);
        let pm = part_streams(data, cls, n - 1);
        assert(0 <= ci < 4);
        assert(pn[ci] == pm[ci].push(b));
        assert(cnt[ci] == pm[ci].len());
        assert(pn[ci][cnt[ci]] == b);
        assert(cnt2 == cnt.update(ci, cnt[ci] + 1));
        // the byte read next from stream `c` is `b`
        assert(pn[ci] == full[ci].subrange(0, pn[ci].len() as int));
        assert(full[ci][cnt[ci]] == b);
        assert(data.subrange(0, n) == data.subrange(0, n - 1).push(b));
        if r.len() > 0 && r.last().0 == c {
            let k = r.len() as int;
            let len = r.last().1;
            assert(r2 == r.update(k - 1, (c, len + 1)));
            lemma_merge_runs_prefix(full, r, r2, k - 1);
            let prev = merge_runs(full, r, k - 1);
            assert(prev is Some);
            let st = prev.unwrap();
            lemma_merge_offsets_len(full, r, k - 1);
            assert(r[k - 1] == (c, len));
            assert(merge_runs(full, r, k) == Some(
                (
                    st.0 + full[ci].subrange(st.1[ci], st.1[ci] + len),
                    st.1.update(ci, st.1[ci] + len),
                ),
            ));
            assert(st.1.update(ci, st.1[ci] + len)[ci] == cnt[ci]);
            assert(st.1[ci] + len == cnt[ci]);
            assert(pn[ci].len() <= full[ci].len());
            assert(full[ci].subrange(st.1[ci], st.1[ci] + len + 1) == full[ci].subrange(
                st.1[ci],
                st.1[ci] + len,
            ).push(b));
            assert(st.1.update(ci, st.1[ci] + len + 1) == cnt2);
        } else {
            let k = r.len() as int;
            assert(r2 == r.push((c, 1int)));
            lemma_merge_runs_prefix(full, r, r2, k);
            assert(full[ci].subrange(cnt[ci], cnt[ci] + 1) == seq![b]);
        }
    }
}

/// Merging the streams of a partition over its position map restores the data.
pub proof fn lemma_partition_merge(data: Seq<u8>)
    ensures
        merge_spec(
            part_streams(data, classify_spec(data), data.len() as int),
            part_runs(classify_spec(data), data.len() as int),
        ) == Some(data),
{
    lemma_merge_partition_prefix(data, classify_spec(data), data.len() as int);
    assert(data.subrange(0, data.len() as int) == data);
}


proof fn lemma_part_runs_grow(cls: Seq<ByteClass>, i: int, n: int)
    requires
        0 <= i <= n,
    ensures
        part_runs(cls, i).len() <= part_runs(cls, n).len(),
        forall|j: int|
            0 <= j < part_runs(cls, i).len() ==> #[trigger] part_runs(cls, i)[j].1 <= part_runs(
                cls,
                n,
            )[j].1,
    decreases n - i,
{
    if i < n {
        lemma_part_runs_grow(cls, i + 1, n);
        let a = part_runs(cls, i);
        let b = part_runs(cls, i + 1);
        assert forall|j: int| 0 <= j < a.len() implies #[trigger] a[j].1 <= b[j].1 by {}
    }
}

/// The class codes a run-length map stands for, each run expanded in order.
pub open spec fn expand_runs(runs: Seq<(u8, int)>) -> Seq<u8>
    decreases runs.len(),
{
    if runs.len() == 0 {
        Seq::empty()
    } else {
        expand_runs(runs.drop_last()) + Seq::new(runs.last().1 as nat, |j: int| runs.last().0)
    }
}

/// The position map of the first `n` classes: every run names one of the
/// four classes and is between 1 and `n` long, no two adjacent runs name the
/// same class, and expanding the runs gives back the class codes in order.
pub proof fn lemma_part_runs_shape(cls: Seq<ByteClass>, n: int)
    requires
        0 <= n <= cls.len(),
    ensures
        ({
            let r = part_runs(cls, n);
            &&& forall|k: int| 0 <= k < r.len() ==> (#[trigger] r[k]).0 < 4 && 1 <= r[k].1 <= n
            &&& forall|k: int| 0 < k < r.len() ==> (#[trigger] r[k]).0 != r[k - 1].0
            &&& expand_runs(r) == Seq::new(n as nat, |i: int| cls[i].code())
        }),
    decreases n,
{
    if n > 0 {
        lemma_part_runs_shape(cls, n - 1);
        let r = part_runs(cls, n - 1);
        let c = cls[n - 1].code();
        let prev = Seq::new((n - 1) as nat, |i: int| cls[i].code());
        let cur = Seq::new(n as nat, |i: int| cls[i].code());
        if r.len() > 0 && r.last().0 == c {
            let r2 = r.update(r.len() - 1, (c, r.last().1 + 1));
            assert(r2.drop_last() =~= r.drop_last());
            assert(Seq::new(r2.last().1 as nat, |j: int| r2.last().0) =~= Seq::new(r.last().1 as nat, |j: int| r.last().0).push(c));
            assert(expand_runs(r2) =~= expand_runs(r).push(c));
            assert(cur =~= prev.push(c));
        } else {
            let r2 = r.push((c, 1int));
            assert(r2.drop_last() =~= r);
            assert(Seq::new(1nat, |j: int| c) =~= seq![c]);
            assert(expand_runs(r2) =~= expand_runs(r).push(c));
            assert(cur =~= prev.push(c));
        }
    }
}

/// The bytes among the first `n` of `data` whose class code is `k`, in order.
pub open spec fn class_bytes(data: Seq<u8>, cls: Seq<ByteClass>, n: int, k: int) -> Seq<u8>
    decreases n,
{
    if n <= 0 {
        Seq::empty()
    } else {
        class_bytes(data, cls, n - 1, k) + (if cls[n - 1].code() == k { seq![data[n - 1]] } else { Seq::empty() })
    }
}

/// Partitioning makes four streams, stream `k` holding the bytes of class
/// `k` in their original order.
pub proof fn lemma_part_streams_classes(data: Seq<u8>, cls: Seq<ByteClass>, n: int)
    requires
        0 <= n <= cls.len(),
        n <= data.len(),
    ensures
        part_streams(data, cls, n).len() == 4,
        forall|k: int| 0 <= k < 4 ==> #[trigger] part_streams(data, cls, n)[k] == class_bytes(data, cls, n, k),
    decreases n,
{
    if n > 0 {
        lemma_part_streams_classes(data, cls, n - 1);
        let s = part_streams(data, cls, n - 1);
        let c = cls[n - 1].code() as int;
        assert forall|k: int| 0 <= k < 4 implies #[trigger] part_streams(data, cls, n)[k] == class_bytes(data, cls, n, k) by {
            if k == c {
                assert(class_bytes(data, cls, n, k) =~= s[k].push(data[n - 1]));
            } else {
                assert(class_bytes(data, cls, n, k) =~= s[k]);
            }
        }
    }
}

/// Input within `u32::MAX` bytes has every run of its position map within a
/// `u32`, so `partition` accepts it.
pub proof fn lemma_runs_fit(data: Seq<u8>)
    requires
        data.len() <= u32::MAX,
    ensures
        runs_fit(data),
{
    lemma_part_runs_shape(classify_spec(data), data.len() as int);
}

/// Partitions `data` into entropy-homogeneous streams plus a position map.
pub fn partition(data: &[u8]) -> (r: PartitionResult)
    requires
        runs_fit(data@),
    ensures
        streams_view(r.streams) == part_streams(data@, classify_spec(data@), data@.len() as int),
        runs_view(r.position_map@) == part_runs(classify_spec(data@), data@.len() as int),
{
    let classes = classify(data);
    let ghost cls = classify_spec(data@);
    let ghost n = data@.len() as int;
    let mut s0: Vec<u8> = Vec::new();
    let mut s1: Vec<u8> = Vec::new();
    let mut s2: Vec<u8> = Vec::new();
    let mut s3: Vec<u8> = Vec::new();
    let mut position_map: Vec<(u8, u32)> = Vec::new();
    let mut i: usize = 0;
    while i < data.len()
        invariant
            i <= data.len(),
            classes@ == cls,
            cls == classify_spec(data@),
            cls.len() == data@.len(),
            n == data@.len(),
            runs_fit(data@),
            seq![s0@, s1@, s2@, s3@] == part_streams(data@, cls, i as int),
            runs_view(position_map@) == part_runs(cls, i as int),
        decreases data.len() - i,
    {
        let b = data[i];
        let class = classes[i];
        let class_id = class.id();
        proof {
            lemma_part_streams_len(data@, cls, i as int);
        }
        match class {
            ByteClass::Delimiter => s0.push(b),
            ByteClass::Numeric => s1.push(b),
            ByteClass::Text => s2.push(b),
            ByteClass::HighEntropy => s3.push(b),
        }
        let ghost before = part_runs(cls, i as int);
        let plen = position_map.len();
        if plen > 0 && position_map[plen - 1].0 == class_id {
            let last = position_map[plen - 1];
            proof {
                lemma_part_runs_grow(cls, i + 1, n);
                assert(part_runs(cls, i + 1) == before.update(
                    before.len() - 1,
                    (class_id, before.last().1 + 1),
                ));
                assert(part_runs(cls, i + 1)[plen - 1].1 == last.1 + 1);
                let rr = part_runs(classify_spec(data@), data@.len() as int);
                assert(rr == part_runs(cls, n));
                assert(before.len() == plen);
                assert(part_runs(cls, i + 1).len() == plen);
                assert(plen - 1 < rr.len());
                assert(runs_fit(data@));
                assert(rr[plen - 1].1 <= u32::MAX);
            }
            position_map.set(plen - 1, (class_id, last.1 + 1));
        } else {
            position_map.push((class_id, 1u32));
        }
        i = i + 1;
        proof {
            assert(runs_view(position_map@) == part_runs(cls, i as int));
        }
    }
    PartitionResult { streams: [s0, s1, s2, s3], position_map }
}

proof fn lemma_merge_none_stays(streams: Seq<Seq<u8>>, runs: Seq<(u8, int)>, k: int, m: int)
    requires
        k <= m,
        merge_runs(streams, runs, k) is None,
    ensures
        merge_runs(streams, runs, m) is None,
    decreases m - k,
{
    if k < m {
        lemma_merge_none_stays(streams, runs, k, m - 1);
    }
}

/// Merges the streams back into the original byte order along the position map.
pub fn merge(result: &PartitionResult) -> (r: Result<Vec<u8>, CpacError>)
    ensures
        r is Ok <==> merge_spec(streams_view(result.streams), runs_view(result.position_map@)) is Some,
        r matches Ok(out) ==> Some(out@) == merge_spec(
            streams_view(result.streams),
            runs_view(result.position_map@),
        ),
        r matches Err(e) ==> e is Transform,
{
    let ghost sv = streams_view(result.streams);
    let ghost rv = runs_view(result.position_map@);
    let mut out: Vec<u8> = Vec::new();
    let mut offs: Vec<usize> = vec![0, 0, 0, 0];
    let mut k: usize = 0;
    while k < result.position_map.len()
        invariant
            k <= result.position_map.len(),
            sv == streams_view(result.streams),
            rv == runs_view(result.position_map@),
            offs@.len() == 4,
            merge_runs(sv, rv, k as int) == Some(
                (out@, seq![offs@[0] as int, offs@[1] as int, offs@[2] as int, offs@[3] as int]),
            ),
        decreases result.position_map.len() - k,
    {
        let (class_id, run_len) = result.position_map[k];
        let cid = class_id as usize;
        if cid >= 4 {
            proof {
                lemma_merge_none_stays(sv, rv, k + 1, rv.len() as int);
            }
            return Err(CpacError::Transform("conditioning: invalid class id in position map".to_string()));
        }
        let stream: &Vec<u8> = &result.streams[cid];
        assert(stream@ == sv[cid as int]);
        proof {
            lemma_merge_offsets_len(sv, rv, k as int);
        }
        let ghost out0 = out@;
        let ghost off0 = offs@[cid as int] as int;
        let mut j: u32 = 0;
        while j < run_len
            invariant
                j <= run_len,
                cid < 4,
                k < result.position_map.len(),
                rv == runs_view(result.position_map@),
                sv == streams_view(result.streams),
                cid == class_id as usize,
                result.position_map@[k as int] == (class_id, run_len),
                stream@ == sv[cid as int],
                offs@.len() == 4,
                off0 + j == offs@[cid as int],
                0 <= off0 <= stream@.len(),
                off0 + j <= stream@.len(),
                out@ == out0 + stream@.subrange(off0, off0 + j),
                merge_runs(sv, rv, k as int) == Some(
                    (out0, seq![offs@[0] as int, offs@[1] as int, offs@[2] as int, offs@[3] as int].update(cid as int, off0)),
                ),
            decreases run_len - j,
        {
            if offs[cid] >= stream.len() {
                proof {
                    assert(rv[k as int] == (class_id, run_len as int));
                    assert(merge_runs(sv, rv, k + 1) is None);
                    lemma_merge_none_stays(sv, rv, k + 1, rv.len() as int);
                }
                return Err(CpacError::Transform("conditioning: position map overflows stream".to_string()));
            }
            let ghost before = out@;
            assert(off0 + j < stream@.len());
            out.push(stream[offs[cid]]);
            proof {
                let jj: int = j as int;
                assert(0 <= off0);
                assert(0 <= jj);
                assert(off0 + jj + 1 <= stream@.len());
                assert(stream@.subrange(off0, off0 + jj + 1) =~= stream@.subrange(off0, off0 + jj).push(
                    stream@[off0 + jj],
                ));
                assert(out@ == before.push(stream@[off0 + jj]));
            }
            let o = offs[cid];
            offs.set(cid, o + 1);
            j = j + 1;
        }
        proof {
            assert(rv[k as int] == (class_id, run_len as int));
            assert(offs@[cid as int] == off0 + run_len);
            let cur = seq![offs@[0] as int, offs@[1] as int, offs@[2] as int, offs@[3] as int];
            let old_offs = cur.update(cid as int, off0);
            assert(old_offs.update(cid as int, off0 + run_len) == cur);
            assert(old_offs[cid as int] == off0);
            assert(merge_runs(sv, rv, k + 1) == Some((out@, cur)));
        }
        k = k + 1;
    }
    assert(merge_runs(sv, rv, rv.len() as int) == merge_runs(sv, rv, k as int));
    Ok(out)
}


/// Encoding of the first `k` runs: class byte then the run length (4 bytes LE).
pub open spec fn runs_bytes(pm: Seq<(u8, u32)>, k: int) -> Seq<u8>
    decreases k,
{
    if k <= 0 {
        Seq::empty()
    } else {
        runs_bytes(pm, k - 1) + seq![pm[k - 1].0] + le32(pm[k - 1].1)
    }
}

/// Wire encoding of a partition:
/// `[num_runs:4][runs:(class:1, len:4)...][stream_lens:4x4][streams...]`, all LE.
pub open spec fn serialize_spec(sv: Seq<Seq<u8>>, pm: Seq<(u8, u32)>) -> Seq<u8> {
    le32(pm.len() as u32) + runs_bytes(pm, pm.len() as int) + le32(sv[0].len() as u32) + le32(
        sv[1].len() as u32,
    ) + le32(sv[2].len() as u32) + le32(sv[3].len() as u32) + sv[0] + sv[1] + sv[2] + sv[3]
}

/// What decoding `d` yields: the streams and position map, or `None` when the
/// header, the position map, the stream lengths or a stream is truncated.
/// Bytes after the last stream are ignored.
pub open spec fn parse_partition(d: Seq<u8>) -> Option<(Seq<Seq<u8>>, Seq<(u8, u32)>)> {
    if d.len() < 4 {
        None
    } else {
        let n = get32(d, 0) as int;
        let o = 4 + 5 * n;
        if o + 16 > d.len() {
            None
        } else {
            let p0 = o + 16;
            let p1 = p0 + get32(d, o) as int;
            let p2 = p1 + get32(d, o + 4) as int;
            let p3 = p2 + get32(d, o + 8) as int;
            let p4 = p3 + get32(d, o + 12) as int;
            if p4 > d.len() {
                None
            } else {
                Some(
                    (
                        seq![
                            d.subrange(p0, p1),
                            d.subrange(p1, p2),
                            d.subrange(p2, p3),
                            d.subrange(p3, p4),
                        ],
                        Seq::new(n as nat, |k: int| (d[4 + 5 * k], get32(d, 5 + 5 * k))),
                    ),
                )
            }
        }
    }
}

/// Serializes a partition result into its compact binary format.
pub fn serialize_partition(result: &PartitionResult) -> (out: Vec<u8>)
    ensures
        out@ == serialize_spec(streams_view(result.streams), result.position_map@),
{
    let mut out: Vec<u8> = Vec::new();
    let n = result.position_map.len();
    push_u32(&mut out, n as u32);
    let ghost head = out@;
    let mut k: usize = 0;
    while k < n
        invariant
            k <= n,
            n == result.position_map@.len(),
            out@ == head + runs_bytes(result.position_map@, k as int),
        decreases n - k,
    {
        let (class_id, run_len) = result.position_map[k];
        out.push(class_id);
        push_u32(&mut out, run_len);
        k = k + 1;
    }
    push_u32(&mut out, result.streams[0].len() as u32);
    push_u32(&mut out, result.streams[1].len() as u32);
    push_u32(&mut out, result.streams[2].len() as u32);
    push_u32(&mut out, result.streams[3].len() as u32);
    push_all(&mut out, result.streams[0].as_slice());
    push_all(&mut out, result.streams[1].as_slice());
    push_all(&mut out, result.streams[2].as_slice());
    push_all(&mut out, result.streams[3].as_slice());
    out
}

/// Deserializes a partition result from its compact binary format.
pub fn deserialize_partition(data: &[u8]) -> (r: Result<PartitionResult, CpacError>)
    ensures
        r is Ok <==> parse_partition(data@) is Some,
        r matches Ok(p) ==> parse_partition(data@) == Some(
            (streams_view(p.streams), p.position_map@),
        ),
        r matches Err(e) ==> e is Transform,
{
    if data.len() < 4 {
        return Err(CpacError::Transform("conditioning: data too short for header".to_string()));
    }
    let num_runs = read_u32(data, 0) as usize;
    let mut offset: usize = 4;
    let mut position_map: Vec<(u8, u32)> = Vec::new();
    let mut k: usize = 0;
    while k < num_runs
        invariant
            k <= num_runs,
            num_runs == get32(data@, 0),
            offset == 4 + 5 * k,
            offset <= data@.len(),
            position_map@.len() == k,
            forall|j: int|
                0 <= j < k ==> #[trigger] position_map@[j] == (data@[4 + 5 * j], get32(data@, 5 + 5 * j)),
        decreases num_runs - k,
    {
        if data.len() - offset < 5 {
            return Err(CpacError::Transform("conditioning: truncated position map".to_string()));
        }
        let class_id = data[offset];
        let run_len = read_u32(data, offset + 1);
        position_map.push((class_id, run_len));
        offset = offset + 5;
        k = k + 1;
    }
    if data.len() - offset < 16 {
        return Err(CpacError::Transform("conditioning: truncated stream lengths".to_string()));
    }
    let l0 = read_u32(data, offset) as usize;
    let l1 = read_u32(data, offset + 4) as usize;
    let l2 = read_u32(data, offset + 8) as usize;
    let l3 = read_u32(data, offset + 12) as usize;
    offset = offset + 16;
    if data.len() - offset < l0 {
        return Err(CpacError::Transform("conditioning: truncated stream data".to_string()));
    }
    let s0 = slice_to_vec(data, offset, offset + l0);
    offset = offset + l0;
    if data.len() - offset < l1 {
        return Err(CpacError::Transform("conditioning: truncated stream data".to_string()));
    }
    let s1 = slice_to_vec(data, offset, offset + l1);
    offset = offset + l1;
    if data.len() - offset < l2 {
        return Err(CpacError::Transform("conditioning: truncated stream data".to_string()));
    }
    let s2 = slice_to_vec(data, offset, offset + l2);
    offset = offset + l2;
    if data.len() - offset < l3 {
        return Err(CpacError::Transform("conditioning: truncated stream data".to_string()));
    }
    let s3 = slice_to_vec(data, offset, offset + l3);
    let ghost parsed = parse_partition(data@);
    assert(position_map@ =~= Seq::new(
        num_runs as nat,
        |k: int| (data@[4 + 5 * k], get32(data@, 5 + 5 * k)),
    ));
    Ok(PartitionResult { streams: [s0, s1, s2, s3], position_map })
}


#[verifier::spinoff_prover]
proof fn lemma_runs_bytes(pm: Seq<(u8, u32)>, k: int)
    requires
        0 <= k <= pm.len(),
    ensures
        runs_bytes(pm, k).len() == 5 * k,
        forall|j: int|
            0 <= j < k ==> #[trigger] runs_bytes(pm, k)[5 * j] == pm[j].0 && runs_bytes(pm, k).subrange(
                5 * j + 1,
                5 * j + 5,
            ) == le32(pm[j].1),
    decreases k,
{
    if k > 0 {
        lemma_runs_bytes(pm, k - 1);
        let a = runs_bytes(pm, k - 1);
        let b = runs_bytes(pm, k);
        assert(b == a + seq![pm[k - 1].0] + le32(pm[k - 1].1));
        assert forall|j: int| 0 <= j < k implies #[trigger] b[5 * j] == pm[j].0 && b.subrange(
            5 * j + 1,
            5 * j + 5,
        ) == le32(pm[j].1) by {
            if j < k - 1 {
                assert(b[5 * j] == a[5 * j]);
                assert(b.subrange(5 * j + 1, 5 * j + 5) =~= a.subrange(5 * j + 1, 5 * j + 5));
            } else {
                assert(b[5 * j] == pm[j].0);
                assert(b.subrange(5 * j + 1, 5 * j + 5) =~= le32(pm[j].1));
            }
        }
    }
}

/// Decoding the serialization of a partition gives back its streams and
/// position map, when every length fits the format's 32-bit fields.
#[verifier::rlimit(60)]
pub proof fn lemma_serialize_parse_roundtrip(sv: Seq<Seq<u8>>, pm: Seq<(u8, u32)>)
    requires
        sv.len() == 4,
        pm.len() <= u32::MAX,
        forall|i: int| 0 <= i < 4 ==> #[trigger] sv[i].len() <= u32::MAX,
    ensures
        parse_partition(serialize_spec(sv, pm)) == Some((sv, pm)),
{
    let n = pm.len() as int;
    let rb = runs_bytes(pm, n);
    lemma_runs_bytes(pm, n);
    let a = le32(n as u32);
    let l0 = le32(sv[0].len() as u32);
    let l1 = le32(sv[1].len() as u32);
    let l2 = le32(sv[2].len() as u32);
    let l3 = le32(sv[3].len() as u32);
    let head = a + rb + l0 + l1 + l2 + l3;
    let d = serialize_spec(sv, pm);
    assert(d == head + sv[0] + sv[1] + sv[2] + sv[3]);
    let o = 4 + 5 * n;
    assert(head.len() == o + 16);
    let body = sv[0] + sv[1] + sv[2] + sv[3];
    assert(d =~= head + body);
    assert forall|i: int| 0 <= i < head.len() implies #[trigger] d[i] == head[i] by {}
    lemma_le32_at(n as u32, d, 0);
    lemma_le32_at(sv[0].len() as u32, d, o);
    lemma_le32_at(sv[1].len() as u32, d, o + 4);
    lemma_le32_at(sv[2].len() as u32, d, o + 8);
    lemma_le32_at(sv[3].len() as u32, d, o + 12);
    let p0 = o + 16;
    let p1 = p0 + sv[0].len();
    let p2 = p1 + sv[1].len();
    let p3 = p2 + sv[2].len();
    let p4 = p3 + sv[3].len();
    assert(d.len() == p4);
    assert(d.subrange(p0, p4) =~= body);
    assert(body.subrange(0, sv[0].len() as int) =~= sv[0]);
    assert(body.subrange(p1 - p0, p2 - p0) =~= sv[1]);
    assert(body.subrange(p2 - p0, p3 - p0) =~= sv[2]);
    assert(body.subrange(p3 - p0, p4 - p0) =~= sv[3]);
    assert(d.subrange(p0, p1) =~= sv[0]);
    assert(d.subrange(p1, p2) =~= sv[1]);
    assert(d.subrange(p2, p3) =~= sv[2]);
    assert(d.subrange(p3, p4) =~= sv[3]);
    let parsed_pm = Seq::new(n as nat, |k: int| (d[4 + 5 * k], get32(d, 5 + 5 * k)));
    assert forall|k: int| 0 <= k < n implies #[trigger] parsed_pm[k] == pm[k] by {
        let sub = rb.subrange(5 * k + 1, 5 * k + 5);
        assert(rb[5 * k] == pm[k].0);
        assert(sub == le32(pm[k].1));
        assert(d[4 + 5 * k] == rb[5 * k]);
        assert(d[5 + 5 * k] == sub[0]);
        assert(d[6 + 5 * k] == sub[1]);
        assert(d[7 + 5 * k] == sub[2]);
        assert(d[8 + 5 * k] == sub[3]);
        lemma_le32_at(pm[k].1, d, 5 + 5 * k);
    }
    assert(parsed_pm =~= pm);
    assert(seq![d.subrange(p0, p1), d.subrange(p1, p2), d.subrange(p2, p3), d.subrange(p3, p4)]
        =~= sv);
}

} // verus!
