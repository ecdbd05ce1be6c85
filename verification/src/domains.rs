//! Domain detection: CSV, JSON, XML, YAML and log text, recognized from their
//! first bytes; and the parsing of CSV text into columns.

use vstd::prelude::*;
use vstd::utf8::valid_utf8;
use crate::archive::{lossy_decode, lossy_string};
use crate::bytes::slice_to_vec;
use crate::error::CpacError;
use crate::text::{lines_acc, trim_spec, trim_start_spec, trim_start_from, lines_spec, contains_spec, starts_with_spec, count_byte, trim_bounds, line_bounds, contains_in, count_byte_in};
use crate::wal::string_from_utf8;

verus! {

/// The kind of data a block holds.
#[derive(Clone, Copy, Debug, PartialEq, Eq)]
pub enum DomainHint {
    Json,
    Xml,
    Yaml,
    Log,
    Csv,
    Binary,
}

/// The first `cap` bytes of `d` (all of it when shorter).
pub open spec fn head(d: Seq<u8>, cap: int) -> Seq<u8> {
    if d.len() < cap {
        d
    } else {
        d.subrange(0, cap)
    }
}

/// The first `n` items of `s` (all of them when fewer).
pub open spec fn first_n<T>(s: Seq<T>, n: int) -> Seq<T> {
    if s.len() < n {
        s
    } else {
        s.subrange(0, n)
    }
}

/// Whether every line holds the delimiter `c` as often as the first, at least once.
pub open spec fn consistent_delim(ls: Seq<Seq<u8>>, c: u8) -> bool {
    count_byte(ls[0], c) > 0 && forall|k: int| 0 <= k < ls.len() ==> #[trigger] count_byte(ls[k], c) == count_byte(ls[0], c)
}

/// Whether `data` looks like CSV: among its first 10 lines (of its first 4096
/// bytes) there are at least two, and a comma, tab or pipe occurs in each as
/// often as in the first, and at least once.
pub open spec fn detect_csv_spec(data: Seq<u8>) -> bool {
    let ls = first_n(lines_spec(head(data, 4096)), 10);
    ls.len() >= 2 && (consistent_delim(ls, 0x2Cu8) || consistent_delim(ls, 0x09u8) || consistent_delim(ls, 0x7Cu8))
}

/// Whether a (trimmed) line looks like a log line: an ISO-like timestamp
/// prefix, or a log level in it.
pub open spec fn is_log_line(l: Seq<u8>) -> bool {
    (l.len() > 19 && l[4] == 0x2Du8 && l[10] == 0x54u8)
        || contains_spec(l, seq![0x54u8, 0x52u8, 0x41u8, 0x43u8, 0x45u8])
        || contains_spec(l, seq![0x44u8, 0x45u8, 0x42u8, 0x55u8, 0x47u8])
        || contains_spec(l, seq![0x49u8, 0x4Eu8, 0x46u8, 0x4Fu8])
        || contains_spec(l, seq![0x57u8, 0x41u8, 0x52u8, 0x4Eu8])
        || contains_spec(l, seq![0x57u8, 0x41u8, 0x52u8, 0x4Eu8, 0x49u8, 0x4Eu8, 0x47u8])
        || contains_spec(l, seq![0x45u8, 0x52u8, 0x52u8, 0x4Fu8, 0x52u8])
        || contains_spec(l, seq![0x46u8, 0x41u8, 0x54u8, 0x41u8, 0x4Cu8])
        || contains_spec(l, seq![0x43u8, 0x52u8, 0x49u8, 0x54u8, 0x49u8, 0x43u8, 0x41u8, 0x4Cu8])
}

/// The non-empty trimmed lines and, of those, the log lines.
pub open spec fn log_tally(ls: Seq<Seq<u8>>) -> (nat, nat)
    decreases ls.len(),
{
    if ls.len() == 0 {
        (0, 0)
    } else {
        let prev = log_tally(ls.drop_last());
        let l = trim_spec(ls.last());
        if l.len() == 0 {
            prev
        } else {
            (prev.0 + 1, prev.1 + (if is_log_line(l) { 1nat } else { 0nat }))
        }
    }
}

/// Whether `data` looks like a log: its first 1024 bytes are valid UTF-8 and,
/// of the non-empty lines among the first 10, there are at least 3 and at
/// least half are log lines.
pub open spec fn detect_log_spec(data: Seq<u8>) -> bool {
    let p = head(data, 1024);
    valid_utf8(p) && {
        let t = log_tally(first_n(lines_spec(p), 10));
        t.0 >= 3 && t.1 * 2 >= t.0
    }
}

/// The key-value lines among `ls`: trimmed, not empty, not a comment, and
/// holding `": "` or ending with `':'`.
pub open spec fn yaml_kv_count(ls: Seq<Seq<u8>>) -> nat
    decreases ls.len(),
{
    if ls.len() == 0 {
        0
    } else {
        let l = trim_spec(ls.last());
        yaml_kv_count(ls.drop_last()) + (if l.len() > 0 && l[0] != 0x23u8
            && (contains_spec(l, seq![0x3Au8, 0x20u8]) || l.last() == 0x3Au8) { 1nat } else { 0nat })
    }
}

/// Whether `data` looks like YAML: at least 4 bytes whose first 512 are valid
/// UTF-8 and, without leading whitespace, start with `"---"` or have at least
/// two key-value lines among their first 5 lines.
pub open spec fn detect_yaml_spec(data: Seq<u8>) -> bool {
    data.len() >= 4 && {
        let p = head(data, 512);
        valid_utf8(p) && {
            let t = trim_start_spec(p);
            starts_with_spec(t, seq![0x2Du8, 0x2Du8, 0x2Du8]) || yaml_kv_count(first_n(lines_spec(t), 5)) >= 2
        }
    }
}

/// Whether `c` is ASCII whitespace (space, tab, line feed, form feed, carriage return).
pub open spec fn is_ascii_ws(c: u8) -> bool {
    c == 0x20u8 || c == 0x09u8 || c == 0x0Au8 || c == 0x0Cu8 || c == 0x0Du8
}

/// The first byte of `d` from `i` that is not ASCII whitespace.
pub open spec fn first_non_ws(d: Seq<u8>, i: int) -> Option<u8>
    decreases d.len() - i,
{
    if i < 0 || i >= d.len() {
        None
    } else if !is_ascii_ws(d[i]) {
        Some(d[i])
    } else {
        first_non_ws(d, i + 1)
    }
}

/// Whether the first 200 bytes of `data` name XML.
pub open spec fn looks_like_xml(data: Seq<u8>) -> bool {
    let p = head(data, 200);
    contains_spec(p, seq![0x3Cu8, 0x3Fu8, 0x78u8, 0x6Du8, 0x6Cu8])
        || contains_spec(p, seq![0x3Cu8, 0x72u8, 0x6Fu8, 0x6Fu8, 0x74u8])
        || contains_spec(p, seq![0x78u8, 0x6Du8, 0x6Cu8, 0x6Eu8, 0x73u8])
}

/// The domain detected for `data`.
pub open spec fn detect_domain_spec(data: Seq<u8>) -> Option<DomainHint> {
    if data.len() == 0 {
        None
    } else {
        match first_non_ws(data, 0) {
            Some(c) if c == 0x7Bu8 || c == 0x5Bu8 => Some(DomainHint::Json),
            Some(c) if c == 0x3Cu8 => if looks_like_xml(data) { Some(DomainHint::Xml) } else { None },
            _ => if detect_yaml_spec(data) {
                Some(DomainHint::Yaml)
            } else if detect_log_spec(data) {
                Some(DomainHint::Log)
            } else if detect_csv_spec(data) {
                Some(DomainHint::Csv)
            } else {
                Some(DomainHint::Binary)
            },
        }
    }
}

/// Detection of bracketed data: text whose first non-whitespace byte is `{`
/// or `[` is JSON; text whose first non-whitespace byte is `<` is XML when its
/// first 200 bytes hold `<?xml`, `<root` or `xmlns`, and is left undetected
/// otherwise.
pub proof fn lemma_detect_bracketed(data: Seq<u8>)
    ensures
        (first_non_ws(data, 0) == Some(0x7Bu8) || first_non_ws(data, 0) == Some(0x5Bu8)) ==> detect_domain_spec(data)
            == Some(DomainHint::Json),
        first_non_ws(data, 0) == Some(0x3Cu8) ==> detect_domain_spec(data) == (if contains_spec(
            head(data, 200),
            seq![0x3Cu8, 0x3Fu8, 0x78u8, 0x6Du8, 0x6Cu8],
        ) || contains_spec(head(data, 200), seq![0x3Cu8, 0x72u8, 0x6Fu8, 0x6Fu8, 0x74u8]) || contains_spec(
            head(data, 200),
            seq![0x78u8, 0x6Du8, 0x6Cu8, 0x6Eu8, 0x73u8],
        ) {
            Some(DomainHint::Xml)
        } else {
            None
        }),
{
    lemma_first_non_ws_in(data, 0);
}

proof fn lemma_first_non_ws_in(d: Seq<u8>, i: int)
    ensures
        first_non_ws(d, i) is Some ==> d.len() > 0,
    decreases d.len() - i,
{
    if 0 <= i < d.len() && is_ascii_ws(d[i]) {
        lemma_first_non_ws_in(d, i + 1);
    }
}

fn min_usize(a: usize, b: usize) -> (r: usize)
    ensures
        r == if a < b { a } else { b },
{
    if a < b {
        a
    } else {
        b
    }
}

/// Detects CSV: consistent comma, tab or pipe counts over the first lines.
pub fn detect_csv(data: &[u8]) -> (r: bool)
    ensures
        r == detect_csv_spec(data@),
{
    let n = min_usize(data.len(), 4096);
    let ghost p = data@.subrange(0, n as int);
    assert(head(data@, 4096) =~= p);
    let ls = line_bounds(data, 0, n, 10);
    let ghost lv = first_n(lines_spec(p), 10);
    assert(ls@.len() == lv.len());
    if ls.len() < 2 {
        return false;
    }
    proof {
        assert forall|k: int| 0 <= k < ls@.len() implies data@.subrange((#[trigger] ls@[k]).0 as int, ls@[k].1 as int) == lv[k] by {
            assert(lv[k] == lines_spec(p)[k]);
        }
    }
    let delims: [u8; 3] = [0x2Cu8, 0x09u8, 0x7Cu8];
    let mut d: usize = 0;
    while d < 3
        invariant
            d <= 3,
            ls@.len() == lv.len(),
            lv.len() >= 2,
            lv == first_n(lines_spec(p), 10),
            p == head(data@, 4096),
            delims@ == seq![0x2Cu8, 0x09u8, 0x7Cu8],
            forall|k: int| 0 <= k < ls@.len() ==> (#[trigger] ls@[k]).0 <= ls@[k].1 <= data@.len()
                && data@.subrange(ls@[k].0 as int, ls@[k].1 as int) == lv[k],
            forall|q: int| 0 <= q < d ==> !consistent_delim(lv, #[trigger] delims@[q]),
        decreases 3 - d,
    {
        let c = delims[d];
        let c0 = count_byte_in(data, ls[0].0, ls[0].1, c);
        if c0 > 0 {
            let mut k: usize = 1;
            let mut all = true;
            while k < ls.len() && all
                invariant
                    1 <= k <= ls@.len(),
                    ls@.len() == lv.len(),
                    c0 == count_byte(lv[0], c),
                    forall|j: int| 0 <= j < ls@.len() ==> (#[trigger] ls@[j]).0 <= ls@[j].1 <= data@.len()
                        && data@.subrange(ls@[j].0 as int, ls@[j].1 as int) == lv[j],
                    all ==> forall|j: int| 0 <= j < k ==> #[trigger] count_byte(lv[j], c) == c0,
                    !all ==> count_byte(lv[k - 1], c) != c0,
                decreases ls@.len() - k,
            {
                let ck = count_byte_in(data, ls[k].0, ls[k].1, c);
                if ck != c0 {
                    all = false;
                }
                k = k + 1;
            }
            if all {
                assert(consistent_delim(lv, c));
                return true;
            }
        }
        d = d + 1;
    }
    false
}

/// Whether the trimmed line `b[lo..hi]` is a log line.
fn is_log_line_exec(b: &[u8], lo: usize, hi: usize) -> (r: bool)
    requires
        lo <= hi <= b.len(),
    ensures
        r == is_log_line(b@.subrange(lo as int, hi as int)),
{
    let ghost l = b@.subrange(lo as int, hi as int);
    if hi - lo > 19 && b[lo + 4] == 0x2Du8 && b[lo + 10] == 0x54u8 {
        assert(l[4] == b@[lo + 4] && l[10] == b@[lo + 10]);
        return true;
    }
    proof {
        if hi - lo > 19 {
            assert(l[4] == b@[lo + 4] && l[10] == b@[lo + 10]);
        }
    }
    let lv_trace: [u8; 5] = [0x54u8, 0x52u8, 0x41u8, 0x43u8, 0x45u8];
    assert(lv_trace@ =~= seq![0x54u8, 0x52u8, 0x41u8, 0x43u8, 0x45u8]);
    if contains_in(b, lo, hi, &lv_trace) {
        return true;
    }
    let lv_debug: [u8; 5] = [0x44u8, 0x45u8, 0x42u8, 0x55u8, 0x47u8];
    assert(lv_debug@ =~= seq![0x44u8, 0x45u8, 0x42u8, 0x55u8, 0x47u8]);
    if contains_in(b, lo, hi, &lv_debug) {
        return true;
    }
    let lv_info: [u8; 4] = [0x49u8, 0x4Eu8, 0x46u8, 0x4Fu8];
    assert(lv_info@ =~= seq![0x49u8, 0x4Eu8, 0x46u8, 0x4Fu8]);
    if contains_in(b, lo, hi, &lv_info) {
        return true;
    }
    let lv_warn: [u8; 4] = [0x57u8, 0x41u8, 0x52u8, 0x4Eu8];
    assert(lv_warn@ =~= seq![0x57u8, 0x41u8, 0x52u8, 0x4Eu8]);
    if contains_in(b, lo, hi, &lv_warn) {
        return true;
    }
    let lv_warning: [u8; 7] = [0x57u8, 0x41u8, 0x52u8, 0x4Eu8, 0x49u8, 0x4Eu8, 0x47u8];
    assert(lv_warning@ =~= seq![0x57u8, 0x41u8, 0x52u8, 0x4Eu8, 0x49u8, 0x4Eu8, 0x47u8]);
    if contains_in(b, lo, hi, &lv_warning) {
        return true;
    }
    let lv_error: [u8; 5] = [0x45u8, 0x52u8, 0x52u8, 0x4Fu8, 0x52u8];
    assert(lv_error@ =~= seq![0x45u8, 0x52u8, 0x52u8, 0x4Fu8, 0x52u8]);
    if contains_in(b, lo, hi, &lv_error) {
        return true;
    }
    let lv_fatal: [u8; 5] = [0x46u8, 0x41u8, 0x54u8, 0x41u8, 0x4Cu8];
    assert(lv_fatal@ =~= seq![0x46u8, 0x41u8, 0x54u8, 0x41u8, 0x4Cu8]);
    if contains_in(b, lo, hi, &lv_fatal) {
        return true;
    }
    let lv_critical: [u8; 8] = [0x43u8, 0x52u8, 0x49u8, 0x54u8, 0x49u8, 0x43u8, 0x41u8, 0x4Cu8];
    assert(lv_critical@ =~= seq![0x43u8, 0x52u8, 0x49u8, 0x54u8, 0x49u8, 0x43u8, 0x41u8, 0x4Cu8]);
    if contains_in(b, lo, hi, &lv_critical) {
        return true;
    }
    false
}

/// Detects log-style text: timestamps or log levels on most of the first lines.
pub fn detect_log(data: &[u8]) -> (r: bool)
    ensures
        r == detect_log_spec(data@),
{
    let n = min_usize(data.len(), 1024);
    let ghost p = data@.subrange(0, n as int);
    assert(head(data@, 1024) =~= p);
    match string_from_utf8(slice_to_vec(data, 0, n)) {
        None => {
            return false;
        },
        Some(_) => {},
    }
    let ls = line_bounds(data, 0, n, 10);
    let ghost lv = first_n(lines_spec(p), 10);
    let mut total: usize = 0;
    let mut logs: usize = 0;
    let mut k: usize = 0;
    while k < ls.len()
        invariant
            k <= ls@.len(),
            ls@.len() == lv.len(),
            ls@.len() <= 10,
            lv == first_n(lines_spec(p), 10),
            forall|j: int| 0 <= j < ls@.len() ==> (#[trigger] ls@[j]).0 <= ls@[j].1 <= data@.len()
                && data@.subrange(ls@[j].0 as int, ls@[j].1 as int) == lines_spec(p)[j],
            (total as nat, logs as nat) == log_tally(lv.subrange(0, k as int)),
            logs <= total <= k,
        decreases ls@.len() - k,
    {
        let (ts, te) = trim_bounds(data, ls[k].0, ls[k].1);
        proof {
            assert(lv.subrange(0, k + 1).drop_last() =~= lv.subrange(0, k as int));
            assert(lv[k as int] == lines_spec(p)[k as int]);
        }
        if te > ts {
            total = total + 1;
            if is_log_line_exec(data, ts, te) {
                logs = logs + 1;
            }
        }
        k = k + 1;
    }
    assert(lv.subrange(0, ls@.len() as int) =~= lv);
    total >= 3 && logs * 2 >= total
}

/// Detects YAML: a `"---"` start or key-value lines.
pub fn detect_yaml(data: &[u8]) -> (r: bool)
    ensures
        r == detect_yaml_spec(data@),
{
    if data.len() < 4 {
        return false;
    }
    let n = min_usize(data.len(), 512);
    let ghost p = data@.subrange(0, n as int);
    assert(head(data@, 512) =~= p);
    match string_from_utf8(slice_to_vec(data, 0, n)) {
        None => {
            return false;
        },
        Some(_) => {},
    }
    let pv = slice_to_vec(data, 0, n);
    let pb = pv.as_slice();
    let mut s: usize = 0;
    while s < n && crate::text::ws_len_at_pub(pb, s) != 0
        invariant
            s <= n,
            n == pb@.len(),
            pb@ == p,
            trim_start_from(p, 0) == trim_start_from(p, s as int),
        decreases n - s,
    {
        s = s + crate::text::ws_len_at_pub(pb, s);
    }
    let ghost t = p.subrange(s as int, n as int);
    assert(trim_start_spec(p) == t);
    if n - s >= 3 && pb[s] == 0x2Du8 && pb[s + 1] == 0x2Du8 && pb[s + 2] == 0x2Du8 {
        assert(t.subrange(0, 3) =~= seq![0x2Du8, 0x2Du8, 0x2Du8]);
        return true;
    }
    proof {
        if starts_with_spec(t, seq![0x2Du8, 0x2Du8, 0x2Du8]) {
            assert(t.subrange(0, 3)[0] == t[0]);
            assert(t.subrange(0, 3)[1] == t[1]);
            assert(t.subrange(0, 3)[2] == t[2]);
        }
    }
    let ls = line_bounds(pb, s, n, 5);
    let ghost lv = first_n(lines_spec(t), 5);
    let sep: [u8; 2] = [0x3Au8, 0x20u8];
    assert(sep@ =~= seq![0x3Au8, 0x20u8]);
    let mut kv: usize = 0;
    let mut k: usize = 0;
    while k < ls.len()
        invariant
            k <= ls@.len(),
            ls@.len() == lv.len(),
            ls@.len() <= 5,
            n == pb@.len(),
            t == pb@.subrange(s as int, n as int),
            lv == first_n(lines_spec(t), 5),
            sep@ == seq![0x3Au8, 0x20u8],
            forall|j: int| 0 <= j < ls@.len() ==> (#[trigger] ls@[j]).0 <= ls@[j].1 <= pb@.len()
                && pb@.subrange(ls@[j].0 as int, ls@[j].1 as int) == lines_spec(t)[j],
            kv as nat == yaml_kv_count(lv.subrange(0, k as int)),
            kv <= k,
        decreases ls@.len() - k,
    {
        let (ts, te) = trim_bounds(pb, ls[k].0, ls[k].1);
        let ghost l = pb@.subrange(ts as int, te as int);
        proof {
            assert(lv.subrange(0, k + 1).drop_last() =~= lv.subrange(0, k as int));
            assert(lv[k as int] == lines_spec(t)[k as int]);
        }
        if te > ts && pb[ts] != 0x23u8 {
            assert(l[0] == pb@[ts as int]);
            assert(l.last() == pb@[te - 1]);
            if contains_in(pb, ts, te, &sep) || pb[te - 1] == 0x3Au8 {
                kv = kv + 1;
            }
        } else {
            proof {
                if te > ts {
                    assert(l[0] == pb@[ts as int]);
                }
            }
        }
        k = k + 1;
    }
    assert(lv.subrange(0, ls@.len() as int) =~= lv);
    kv >= 2
}

/// The first byte of `data` that is not ASCII whitespace.
fn first_non_ws_exec(data: &[u8]) -> (r: Option<u8>)
    ensures
        r == first_non_ws(data@, 0),
{
    let mut i: usize = 0;
    while i < data.len()
        invariant
            i <= data.len(),
            first_non_ws(data@, 0) == first_non_ws(data@, i as int),
        decreases data.len() - i,
    {
        let c = data[i];
        if !(c == 0x20u8 || c == 0x09u8 || c == 0x0Au8 || c == 0x0Cu8 || c == 0x0Du8) {
            return Some(c);
        }
        i = i + 1;
    }
    None
}

fn looks_like_xml_exec(data: &[u8]) -> (r: bool)
    ensures
        r == looks_like_xml(data@),
{
    let n = min_usize(data.len(), 200);
    assert(head(data@, 200) =~= data@.subrange(0, n as int));
    let decl: [u8; 5] = [0x3Cu8, 0x3Fu8, 0x78u8, 0x6Du8, 0x6Cu8];
    let root: [u8; 5] = [0x3Cu8, 0x72u8, 0x6Fu8, 0x6Fu8, 0x74u8];
    let ns: [u8; 5] = [0x78u8, 0x6Du8, 0x6Cu8, 0x6Eu8, 0x73u8];
    assert(decl@ =~= seq![0x3Cu8, 0x3Fu8, 0x78u8, 0x6Du8, 0x6Cu8]);
    assert(root@ =~= seq![0x3Cu8, 0x72u8, 0x6Fu8, 0x6Fu8, 0x74u8]);
    assert(ns@ =~= seq![0x78u8, 0x6Du8, 0x6Cu8, 0x6Eu8, 0x73u8]);
    contains_in(data, 0, n, &decl) || contains_in(data, 0, n, &root) || contains_in(data, 0, n, &ns)
}

/// Detects the domain of `data`.
pub fn detect_domain(data: &[u8]) -> (r: Option<DomainHint>)
    ensures
        r == detect_domain_spec(data@),
{
    if data.len() == 0 {
        return None;
    }
    match first_non_ws_exec(data) {
        Some(c) if c == 0x7Bu8 || c == 0x5Bu8 => Some(DomainHint::Json),
        Some(c) if c == 0x3Cu8 => if looks_like_xml_exec(data) { Some(DomainHint::Xml) } else { None },
        _ => if detect_yaml(data) {
            Some(DomainHint::Yaml)
        } else if detect_log(data) {
            Some(DomainHint::Log)
        } else if detect_csv(data) {
            Some(DomainHint::Csv)
        } else {
            Some(DomainHint::Binary)
        },
    }
}

/// CSV domain handler.
pub struct CsvHandler;

/// JSON domain handler.
pub struct JsonHandler;

/// XML domain handler.
pub struct XmlHandler;

/// YAML domain handler.
pub struct YamlHandler;

/// Log-file domain handler.
pub struct LogHandler;

impl CsvHandler {
    /// Handler name.
    pub fn name(&self) -> (r: &'static str)
        ensures
            r@ == "csv"@,
    {
        "csv"
    }

    /// Domain this handler covers.
    pub fn domain_hint(&self) -> (r: DomainHint)
        ensures
            r == DomainHint::Csv,
    {
        DomainHint::Csv
    }

    /// Whether this handler can process `data`.
    pub fn can_handle(&self, data: &[u8]) -> (r: bool)
        ensures
            r == detect_csv_spec(data@),
    {
        detect_csv(data)
    }
}

impl JsonHandler {
    /// Handler name.
    pub fn name(&self) -> (r: &'static str)
        ensures
            r@ == "json"@,
    {
        "json"
    }

    /// Domain this handler covers.
    pub fn domain_hint(&self) -> (r: DomainHint)
        ensures
            r == DomainHint::Json,
    {
        DomainHint::Json
    }

    /// Whether `data` starts, after ASCII whitespace, with `[` or `{`.
    pub fn can_handle(&self, data: &[u8]) -> (r: bool)
        ensures
            r == (first_non_ws(data@, 0) == Some(0x5Bu8) || first_non_ws(data@, 0) == Some(0x7Bu8)),
    {
        let c = match first_non_ws_exec(data) {
            Some(c) => c,
            None => 0u8,
        };
        c == 0x5Bu8 || c == 0x7Bu8
    }
}

impl XmlHandler {
    /// Handler name.
    pub fn name(&self) -> (r: &'static str)
        ensures
            r@ == "xml"@,
    {
        "xml"
    }

    /// Domain this handler covers.
    pub fn domain_hint(&self) -> (r: DomainHint)
        ensures
            r == DomainHint::Xml,
    {
        DomainHint::Xml
    }

    /// Whether the first 200 bytes name XML.
    pub fn can_handle(&self, data: &[u8]) -> (r: bool)
        ensures
            r == looks_like_xml(data@),
    {
        looks_like_xml_exec(data)
    }
}

impl YamlHandler {
    /// Handler name.
    pub fn name(&self) -> (r: &'static str)
        ensures
            r@ == "yaml"@,
    {
        "yaml"
    }

    /// Domain this handler covers.
    pub fn domain_hint(&self) -> (r: DomainHint)
        ensures
            r == DomainHint::Yaml,
    {
        DomainHint::Yaml
    }

    /// Whether this handler can process `data`.
    pub fn can_handle(&self, data: &[u8]) -> (r: bool)
        ensures
            r == detect_yaml_spec(data@),
    {
        detect_yaml(data)
    }
}

impl LogHandler {
    /// Handler name.
    pub fn name(&self) -> (r: &'static str)
        ensures
            r@ == "log"@,
    {
        "log"
    }

    /// Domain this handler covers.
    pub fn domain_hint(&self) -> (r: DomainHint)
        ensures
            r == DomainHint::Log,
    {
        DomainHint::Log
    }

    /// Whether this handler can process `data`.
    pub fn can_handle(&self, data: &[u8]) -> (r: bool)
        ensures
            r == detect_log_spec(data@),
    {
        detect_log(data)
    }
}


/// Checks that bytes are UTF-8.
///
/// Calls `std::str::from_utf8`, which fails exactly when the bytes are not
/// valid UTF-8; the error's description (`Utf8Error` as text) comes back.
/// What that text says is not stated.
#[verifier::external_body]
pub(crate) fn utf8_check(data: &[u8]) -> (r: Result<(), String>)
    ensures
        r is Ok <==> valid_utf8(data@),
{
    match std::str::from_utf8(data) {
        Ok(_) => Ok(()),
        Err(e) => Err(e.to_string()),
    }
}

/// The pieces of `b` from position `i`, the current piece having started at
/// `start`, separated by the byte `d`.
pub open spec fn split_acc(b: Seq<u8>, d: u8, i: int, start: int) -> Seq<Seq<u8>>
    decreases b.len() - i,
{
    if i >= b.len() {
        seq![b.subrange(start, b.len() as int)]
    } else if b[i] == d {
        seq![b.subrange(start, i)] + split_acc(b, d, i + 1, i + 1)
    } else {
        split_acc(b, d, i + 1, start)
    }
}

/// The pieces of `b` between the delimiter bytes `d`, as `str::split` cuts
/// them: one more than there are delimiters.
pub open spec fn split_spec(b: Seq<u8>, d: u8) -> Seq<Seq<u8>> {
    split_acc(b, d, 0, 0)
}

/// The delimiter of CSV text: tab when its first line has more tabs than
/// commas and pipes, else pipe when more pipes than commas, else comma.
pub open spec fn csv_delimiter(data: Seq<u8>) -> u8 {
    let first = if lines_spec(data).len() > 0 { lines_spec(data)[0] } else { Seq::empty() };
    let c = count_byte(first, 0x2Cu8);
    let t = count_byte(first, 0x09u8);
    let p = count_byte(first, 0x7Cu8);
    if t > c && t > p {
        0x09u8
    } else if p > c {
        0x7Cu8
    } else {
        0x2Cu8
    }
}

/// The lines after the header that are not blank.
pub open spec fn csv_records(ls: Seq<Seq<u8>>) -> Seq<Seq<u8>>
    decreases ls.len(),
{
    if ls.len() == 0 {
        Seq::empty()
    } else if trim_spec(ls.last()).len() > 0 {
        csv_records(ls.drop_last()).push(ls.last())
    } else {
        csv_records(ls.drop_last())
    }
}

/// Field `j` of a record, trimmed; empty when the record is shorter.
pub open spec fn csv_field(rec: Seq<u8>, d: u8, j: int) -> Seq<u8> {
    if j < split_spec(rec, d).len() {
        trim_spec(split_spec(rec, d)[j])
    } else {
        Seq::empty()
    }
}

/// The trimmed header names, as bytes.
pub open spec fn csv_header_bytes(data: Seq<u8>) -> Seq<Seq<u8>> {
    let hs = split_spec(lines_spec(data)[0], csv_delimiter(data));
    Seq::new(hs.len(), |j: int| trim_spec(hs[j]))
}

/// Column `j`: field `j` of each record, as text.
pub open spec fn csv_column(data: Seq<u8>, j: int) -> Seq<Seq<char>> {
    let recs = csv_records(lines_spec(data).drop_first());
    Seq::new(recs.len(), |r: int| lossy_decode(csv_field(recs[r], csv_delimiter(data), j)))
}

/// The bounds of the pieces of `b[lo..hi]` between the delimiter bytes `d`.
pub(crate) fn split_bounds(b: &[u8], lo: usize, hi: usize, d: u8) -> (r: Vec<(usize, usize)>)
    requires
        lo <= hi <= b.len(),
    ensures
        r@.len() == split_spec(b@.subrange(lo as int, hi as int), d).len(),
        forall|k: int| 0 <= k < r@.len() ==> lo <= (#[trigger] r@[k]).0 <= r@[k].1 <= hi
            && b@.subrange(r@[k].0 as int, r@[k].1 as int) == split_spec(b@.subrange(lo as int, hi as int), d)[k],
{
    let ghost t = b@.subrange(lo as int, hi as int);
    let mut out: Vec<(usize, usize)> = Vec::new();
    let mut i: usize = lo;
    let mut start: usize = lo;
    let ghost mut done: Seq<Seq<u8>> = Seq::empty();
    while i < hi
        invariant
            lo <= start <= i <= hi <= b.len(),
            t == b@.subrange(lo as int, hi as int),
            split_spec(t, d) == done + split_acc(t, d, i - lo, start - lo),
            out@.len() == done.len(),
            forall|k: int| 0 <= k < out@.len() ==> lo <= (#[trigger] out@[k]).0 <= out@[k].1 <= hi
                && b@.subrange(out@[k].0 as int, out@[k].1 as int) == done[k],
        decreases hi - i,
    {
        proof {
            assert(t[i - lo] == b@[i as int]);
        }
        if b[i] == d {
            proof {
                let piece = t.subrange(start - lo, i - lo);
                assert(b@.subrange(start as int, i as int) =~= piece);
                assert(done.push(piece) + split_acc(t, d, i + 1 - lo, i + 1 - lo) =~= done + (seq![piece] + split_acc(t, d, i + 1 - lo, i + 1 - lo)));
            }
            out.push((start, i));
            proof {
                done = done.push(t.subrange(start - lo, i - lo));
            }
            start = i + 1;
        }
        i = i + 1;
    }
    proof {
        let last = t.subrange(start - lo, t.len() as int);
        assert(split_acc(t, d, i - lo, start - lo) == seq![last]);
        assert(b@.subrange(start as int, hi as int) =~= last);
        assert(split_spec(t, d) =~= done.push(last));
    }
    out.push((start, hi));
    proof {
        done = done.push(t.subrange(start - lo, t.len() as int));
    }
    out
}

pub(crate) proof fn lemma_lines_acc_len(b: Seq<u8>, i: int, start: int)
    requires
        0 <= i <= b.len(),
    ensures
        lines_acc(b, i, start).len() <= b.len() - i + 1,
    decreases b.len() - i,
{
    if i < b.len() {
        lemma_lines_acc_len(b, i + 1, if b[i] == 0x0A { i + 1 } else { start });
    }
}

/// The text of `data[lo..hi]` without surrounding whitespace.
pub(crate) fn trimmed_text(data: &[u8], lo: usize, hi: usize) -> (r: String)
    requires
        lo <= hi <= data@.len(),
    ensures
        r@ == lossy_decode(trim_spec(data@.subrange(lo as int, hi as int))),
{
    let (a, b) = trim_bounds(data, lo, hi);
    let bytes = slice_to_vec(data, a, b);
    lossy_string(bytes.as_slice())
}

/// Chooses the CSV delimiter from the first line (see `csv_delimiter`).
fn detect_delimiter(data: &[u8]) -> (r: u8)
    ensures
        r == csv_delimiter(data@),
{
    let n = data.len();
    let ls = line_bounds(data, 0, n, 1);
    assert(data@.subrange(0, n as int) =~= data@);
    let (lo, hi) = if ls.len() > 0 { ls[0] } else { (0, 0) };
    assert(data@.subrange(lo as int, hi as int) == (if lines_spec(data@).len() > 0 { lines_spec(data@)[0] } else { Seq::empty() }));
    let c = count_byte_in(data, lo, hi, 0x2Cu8);
    let t = count_byte_in(data, lo, hi, 0x09u8);
    let p = count_byte_in(data, lo, hi, 0x7Cu8);
    if t > c && t > p {
        0x09u8
    } else if p > c {
        0x7Cu8
    } else {
        0x2Cu8
    }
}

/// Parses CSV text into header names and columns of field texts.
///
/// The text must be UTF-8 and hold a line. The delimiter is chosen from the
/// first line (see `csv_delimiter`); the header names are its trimmed pieces.
/// Every later line that is not blank is a record, and column `j` holds the
/// trimmed field `j` of each record, or an empty text where a record is short.
pub fn parse_csv(data: &[u8]) -> (r: Result<(Vec<String>, Vec<Vec<String>>), CpacError>)
    requires
        data@.len() < usize::MAX,
    ensures
        r is Ok <==> valid_utf8(data@) && lines_spec(data@).len() > 0,
        r matches Err(e) ==> e is Transform,
        r matches Ok((h, cols)) ==> {
            &&& h@.len() == csv_header_bytes(data@).len()
            &&& forall|j: int| 0 <= j < h@.len() ==> (#[trigger] h@[j])@ == lossy_decode(csv_header_bytes(data@)[j])
            &&& cols@.len() == h@.len()
            &&& forall|j: int| 0 <= j < cols@.len() ==> Seq::new((#[trigger] cols@[j])@.len(), |q: int| cols@[j]@[q]@) == csv_column(data@, j)
        },
{
    match utf8_check(data) {
        Err(msg) => {
            let mut m = "CSV: invalid UTF-8: ".to_owned();
            m.append(msg.as_str());
            return Err(CpacError::Transform(m));
        },
        Ok(()) => {},
    }
    let n = data.len();
    proof {
        lemma_lines_acc_len(data@, 0, 0);
        assert(data@.subrange(0, n as int) =~= data@);
    }
    let lines = line_bounds(data, 0, n, n + 1);
    let ghost ls = lines_spec(data@);
    assert(lines@.len() == ls.len());
    if lines.len() == 0 {
        return Err(CpacError::Transform("CSV: empty data".to_owned()));
    }
    let (h0, h1) = lines[0];
    let delim = detect_delimiter(data);
    let hb = split_bounds(data, h0, h1, delim);
    let ghost hbytes = csv_header_bytes(data@);
    let mut headers: Vec<String> = Vec::new();
    let mut j: usize = 0;
    while j < hb.len()
        invariant
            j <= hb@.len(),
            hb@.len() == hbytes.len(),
            hbytes == csv_header_bytes(data@),
            forall|k: int| 0 <= k < hb@.len() ==> (#[trigger] hb@[k]).0 <= hb@[k].1 <= data@.len()
                && trim_spec(data@.subrange(hb@[k].0 as int, hb@[k].1 as int)) == hbytes[k],
            headers@.len() == j,
            forall|k: int| 0 <= k < j ==> (#[trigger] headers@[k])@ == lossy_decode(hbytes[k]),
        decreases hb.len() - j,
    {
        let (a, b) = hb[j];
        let name = trimmed_text(data, a, b);
        headers.push(name);
        j = j + 1;
    }
    let num_cols = headers.len();
    let ghost recs_all = ls.drop_first();
    let mut rows: Vec<Vec<String>> = Vec::new();
    let mut k: usize = 1;
    while k < lines.len()
        invariant
            1 <= k <= lines@.len(),
            lines@.len() == ls.len(),
            ls == lines_spec(data@),
            recs_all == ls.drop_first(),
            num_cols == hbytes.len(),
            delim == csv_delimiter(data@),
            forall|q: int| 0 <= q < lines@.len() ==> (#[trigger] lines@[q]).0 <= lines@[q].1 <= data@.len()
                && data@.subrange(lines@[q].0 as int, lines@[q].1 as int) == ls[q],
            rows@.len() == csv_records(recs_all.subrange(0, k - 1)).len(),
            forall|q: int| 0 <= q < rows@.len() ==> (#[trigger] rows@[q])@.len() == num_cols,
            forall|q: int, f: int| 0 <= q < rows@.len() && 0 <= f < num_cols ==> (#[trigger] rows@[q]@[f])@ == lossy_decode(
                csv_field(csv_records(recs_all.subrange(0, k - 1))[q], delim, f),
            ),
        decreases lines.len() - k,
    {
        let (a, b) = lines[k];
        let ghost line = ls[k as int];
        let ghost pre = recs_all.subrange(0, k - 1);
        let ghost nxt = recs_all.subrange(0, k as int);
        assert(nxt.drop_last() =~= pre);
        assert(nxt.last() == line);
        let (ta, tb) = trim_bounds(data, a, b);
        if ta < tb {
            let fb = split_bounds(data, a, b, delim);
            let mut row: Vec<String> = Vec::new();
            let mut f: usize = 0;
            while f < num_cols
                invariant
                    f <= num_cols,
                    a <= b <= data@.len(),
                    data@.subrange(a as int, b as int) == line,
                    fb@.len() == split_spec(line, delim).len(),
                    forall|q: int| 0 <= q < fb@.len() ==> (#[trigger] fb@[q]).0 <= fb@[q].1 <= data@.len()
                        && data@.subrange(fb@[q].0 as int, fb@[q].1 as int) == split_spec(line, delim)[q],
                    row@.len() == f,
                    forall|q: int| 0 <= q < f ==> (#[trigger] row@[q])@ == lossy_decode(csv_field(line, delim, q)),
                decreases num_cols - f,
            {
                if f < fb.len() {
                    let (fa, fz) = fb[f];
                    let text = trimmed_text(data, fa, fz);
                    row.push(text);
                } else {
                    let empty: Vec<u8> = Vec::new();
                    let text = lossy_string(empty.as_slice());
                    assert(empty@ =~= csv_field(line, delim, f as int));
                    row.push(text);
                }
                f = f + 1;
            }
            let ghost before = rows@;
            rows.push(row);
            proof {
                assert(trim_spec(line).len() > 0);
                assert(csv_records(nxt) == csv_records(pre).push(line));
                assert forall|q: int, g: int| 0 <= q < rows@.len() && 0 <= g < num_cols implies (#[trigger] rows@[q]@[g])@ == lossy_decode(
                    csv_field(csv_records(nxt)[q], delim, g),
                ) by {
                    if q < before.len() {
                        assert(rows@[q] == before[q]);
                    }
                }
                assert forall|q: int| 0 <= q < rows@.len() implies (#[trigger] rows@[q])@.len() == num_cols by {
                    if q < before.len() {
                        assert(rows@[q] == before[q]);
                    }
                }
            }
        } else {
            proof {
                assert(trim_spec(line).len() == 0);
                assert(csv_records(nxt) == csv_records(pre));
            }
        }
        k = k + 1;
    }
    let ghost recs = csv_records(recs_all);
    assert(recs_all.subrange(0, k - 1) =~= recs_all);
    let mut cols: Vec<Vec<String>> = Vec::new();
    let mut j: usize = 0;
    while j < num_cols
        invariant
            j <= num_cols,
            num_cols == hbytes.len(),
            hbytes == csv_header_bytes(data@),
            delim == csv_delimiter(data@),
            recs == csv_records(lines_spec(data@).drop_first()),
            rows@.len() == recs.len(),
            forall|q: int| 0 <= q < rows@.len() ==> (#[trigger] rows@[q])@.len() == num_cols,
            forall|q: int, f: int| 0 <= q < rows@.len() && 0 <= f < num_cols ==> (#[trigger] rows@[q]@[f])@ == lossy_decode(
                csv_field(recs[q], delim, f),
            ),
            cols@.len() == j,
            forall|q: int| 0 <= q < j ==> Seq::new((#[trigger] cols@[q])@.len(), |m: int| cols@[q]@[m]@) == csv_column(data@, q),
        decreases num_cols - j,
    {
        let mut col: Vec<String> = Vec::new();
        let mut q: usize = 0;
        while q < rows.len()
            invariant
                q <= rows@.len(),
                j < num_cols,
                forall|m: int| 0 <= m < rows@.len() ==> (#[trigger] rows@[m])@.len() == num_cols,
                col@.len() == q,
                forall|m: int| 0 <= m < q ==> (#[trigger] col@[m]) == rows@[m]@[j as int],
            decreases rows.len() - q,
        {
            let v = rows[q][j].clone();
            col.push(v);
            q = q + 1;
        }
        proof {
            assert(Seq::new(col@.len(), |m: int| col@[m]@) =~= csv_column(data@, j as int)) by {
                assert forall|m: int| 0 <= m < col@.len() implies col@[m]@ == csv_column(data@, j as int)[m] by {
                    assert(col@[m] == rows@[m]@[j as int]);
                }
            }
        }
        cols.push(col);
        j = j + 1;
    }
    Ok((headers, cols))
}

} // verus!
