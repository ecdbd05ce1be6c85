//! Decomposition of YAML, log and CSV text into named string columns, and
//! the text rebuilt from such columns.
//!
//! A column set is a list of `(name, values)` pairs.

use vstd::prelude::*;
use vstd::utf8::{encode_utf8, valid_utf8};
use vstd::string::StringExecFns;
use crate::archive::{lossy_decode, lossy_string};
use crate::bytes::push_all;
use crate::domains::{
    csv_column, csv_header_bytes, lemma_lines_acc_len, parse_csv, trimmed_text, utf8_check, CsvHandler,
    LogHandler, XmlHandler, YamlHandler,
};
use crate::wal::string_from_utf8;
use crate::xml::{columns_as_text, columns_view, extract_element_columns, is_grouping, xml_events};
use crate::error::CpacError;
use crate::text::{line_bounds, lines_acc, lines_spec, strip_cr, trim_bounds, trim_end_to, trim_spec, trim_start_from, ws_len_at, ws_len_before};

verus! {

/// The bounds of every line of `data`.
fn all_lines(data: &[u8]) -> (r: Vec<(usize, usize)>)
    requires
        data@.len() < usize::MAX,
    ensures
        r@.len() == lines_spec(data@).len(),
        forall|k: int| 0 <= k < r@.len() ==> (#[trigger] r@[k]).0 <= r@[k].1 <= data@.len()
            && data@.subrange(r@[k].0 as int, r@[k].1 as int) == lines_spec(data@)[k],
{
    let n = data.len();
    proof {
        lemma_lines_acc_len(data@, 0, 0);
    }
    assert(data@.subrange(0, n as int) =~= data@);
    line_bounds(data, 0, n, n + 1)
}

/// The texts of strings.
pub open spec fn texts(v: Seq<String>) -> Seq<Seq<char>> {
    Seq::new(v.len(), |i: int| v[i]@)
}

/// The texts of byte strings, decoded.
pub open spec fn decoded(v: Seq<Seq<u8>>) -> Seq<Seq<char>> {
    Seq::new(v.len(), |i: int| lossy_decode(v[i]))
}

/// The first position from `i` where `c1` is followed by `c2`.
pub open spec fn first_pair(b: Seq<u8>, c1: u8, c2: u8, i: int) -> Option<int>
    decreases b.len() - i,
{
    if i < 0 || i + 1 >= b.len() {
        None
    } else if b[i] == c1 && b[i + 1] == c2 {
        Some(i)
    } else {
        first_pair(b, c1, c2, i + 1)
    }
}

/// The key and value a trimmed YAML line holds: `key: value` split at the
/// first `": "`, or `key:`; none for comments, document markers and other lines.
pub open spec fn yaml_entry(t: Seq<u8>) -> Option<(Seq<u8>, Seq<u8>)> {
    if t.len() == 0 || t[0] == 0x23u8 || (t.len() >= 3 && t[0] == 0x2Du8 && t[1] == 0x2Du8 && t[2] == 0x2Du8) {
        None
    } else {
        match first_pair(t, 0x3Au8, 0x20u8, 0) {
            Some(k) => Some((trim_spec(t.subrange(0, k)), trim_spec(t.subrange(k + 2, t.len() as int)))),
            None => if t.last() == 0x3Au8 {
                Some((trim_spec(t.drop_last()), Seq::empty()))
            } else {
                None
            },
        }
    }
}

/// The entries of YAML lines, in order.
pub open spec fn yaml_entries(ls: Seq<Seq<u8>>) -> Seq<(Seq<u8>, Seq<u8>)>
    decreases ls.len(),
{
    if ls.len() == 0 {
        Seq::empty()
    } else {
        match yaml_entry(trim_spec(ls.last())) {
            Some(e) => yaml_entries(ls.drop_last()).push(e),
            None => yaml_entries(ls.drop_last()),
        }
    }
}

proof fn lemma_first_pair_bound(b: Seq<u8>, c1: u8, c2: u8, i: int)
    ensures
        first_pair(b, c1, c2, i) matches Some(k) ==> 0 <= k && k + 2 <= b.len() && b[k] == c1 && b[k + 1] == c2,
    decreases b.len() - i,
{
    if i >= 0 && i + 1 < b.len() && !(b[i] == c1 && b[i + 1] == c2) {
        lemma_first_pair_bound(b, c1, c2, i + 1);
    }
}

fn find_pair(b: &[u8], lo: usize, hi: usize, c1: u8, c2: u8) -> (r: Option<usize>)
    requires
        lo <= hi <= b@.len(),
    ensures
        match first_pair(b@.subrange(lo as int, hi as int), c1, c2, 0) {
            Some(k) => 0 <= k && k + 2 <= hi - lo && r == Some((lo + k) as usize),
            None => r is None,
        },
        r matches Some(k) ==> lo <= k && k + 2 <= hi,
{
    let ghost t = b@.subrange(lo as int, hi as int);
    proof {
        lemma_first_pair_bound(t, c1, c2, 0);
    }
    let mut i: usize = lo;
    while hi - i >= 2
        invariant
            lo <= i <= hi,
            hi <= b@.len(),
            t == b@.subrange(lo as int, hi as int),
            first_pair(t, c1, c2, 0) == first_pair(t, c1, c2, i - lo),
        decreases hi - i,
    {
        assert(t[i - lo] == b@[i as int] && t[i - lo + 1] == b@[i + 1]);
        if b[i] == c1 && b[i + 1] == c2 {
            return Some(i);
        }
        i = i + 1;
    }
    None
}

/// The text of `data[lo..hi]`.
fn text_of(data: &[u8], lo: usize, hi: usize) -> (r: String)
    requires
        lo <= hi <= data@.len(),
    ensures
        r@ == lossy_decode(data@.subrange(lo as int, hi as int)),
{
    let bytes = crate::bytes::slice_to_vec(data, lo, hi);
    lossy_string(bytes.as_slice())
}

fn push_str(out: &mut Vec<u8>, s: &str)
    ensures
        final(out)@ == old(out)@ + encode_utf8(s@),
{
    push_all(out, s.as_bytes());
}

/// The YAML line of a key and value: `key: value`, or `key:` where the
/// value is empty.
pub open spec fn yaml_line(k: Seq<char>, v: Seq<char>) -> Seq<u8> {
    if v.len() == 0 {
        encode_utf8(k) + seq![0x3Au8]
    } else {
        encode_utf8(k) + seq![0x3Au8, 0x20u8] + encode_utf8(v)
    }
}

/// The YAML text of the first `n` key/value pairs, a line each.
pub open spec fn yaml_body(ks: Seq<Seq<char>>, vs: Seq<Seq<char>>, n: int) -> Seq<u8>
    decreases n,
{
    if n <= 0 {
        Seq::empty()
    } else {
        yaml_body(ks, vs, n - 1) + yaml_line(ks[n - 1], vs[n - 1]) + seq![0x0Au8]
    }
}

impl YamlHandler {
    /// Splits YAML text into a `keys` and a `values` column: one entry per
    /// `key: value` or `key:` line, trimmed; comments, `---` markers and
    /// other lines are skipped. The text must be UTF-8.
    pub fn decompose(&self, data: &[u8]) -> (r: Result<Vec<(String, Vec<String>)>, CpacError>)
        requires
            data@.len() < usize::MAX,
        ensures
            r is Ok <==> valid_utf8(data@),
            r matches Err(e) ==> e is Other,
            r matches Ok(cols) ==> {
                let es = yaml_entries(lines_spec(data@));
                &&& cols@.len() == 2
                &&& cols@[0].0@ == "keys"@
                &&& cols@[1].0@ == "values"@
                &&& texts(cols@[0].1@) == decoded(Seq::new(es.len(), |i: int| es[i].0))
                &&& texts(cols@[1].1@) == decoded(Seq::new(es.len(), |i: int| es[i].1))
            },
    {
        match utf8_check(data) {
            Err(msg) => {
                let mut m = "yaml: invalid UTF-8: ".to_owned();
                m.append(msg.as_str());
                return Err(CpacError::Other(m));
            },
            Ok(()) => {},
        }
        let lines = all_lines(data);
        let ghost ls = lines_spec(data@);
        let mut keys: Vec<String> = Vec::new();
        let mut values: Vec<String> = Vec::new();
        let mut i: usize = 0;
        while i < lines.len()
            invariant
                i <= lines@.len(),
                lines@.len() == ls.len(),
                ls == lines_spec(data@),
                forall|k: int| 0 <= k < lines@.len() ==> (#[trigger] lines@[k]).0 <= lines@[k].1 <= data@.len()
                    && data@.subrange(lines@[k].0 as int, lines@[k].1 as int) == ls[k],
                keys@.len() == yaml_entries(ls.subrange(0, i as int)).len(),
                values@.len() == keys@.len(),
                forall|q: int| 0 <= q < keys@.len() ==> (#[trigger] keys@[q])@ == lossy_decode(
                    yaml_entries(ls.subrange(0, i as int))[q].0,
                ),
                forall|q: int| 0 <= q < values@.len() ==> (#[trigger] values@[q])@ == lossy_decode(
                    yaml_entries(ls.subrange(0, i as int))[q].1,
                ),
            decreases lines.len() - i,
        {
            let ghost pre = ls.subrange(0, i as int);
            let ghost nxt = ls.subrange(0, i + 1);
            assert(nxt.drop_last() =~= pre);
            assert(nxt.last() == ls[i as int]);
            let (lo, hi) = lines[i];
            let (a, b) = trim_bounds(data, lo, hi);
            let ghost t = data@.subrange(a as int, b as int);
            assert(t == trim_spec(ls[i as int]));
            let skip = a == b || data[a] == 0x23u8 || (b - a >= 3 && data[a] == 0x2Du8 && data[a + 1] == 0x2Du8
                && data[a + 2] == 0x2Du8);
            if !skip {
                assert(t[0] == data@[a as int]);
                assert(b - a >= 3 ==> t[1] == data@[a + 1] && t[2] == data@[a + 2]);
                let ghost kb = keys@;
                let ghost vb = values@;
                match find_pair(data, a, b, 0x3Au8, 0x20u8) {
                    Some(k) => {
                        assert(data@.subrange(a as int, k as int) =~= t.subrange(0, k - a));
                        assert(data@.subrange(k + 2, b as int) =~= t.subrange(k - a + 2, t.len() as int));
                        assert(yaml_entry(t) == Some((trim_spec(t.subrange(0, k - a)), trim_spec(t.subrange(k - a + 2, t.len() as int)))));
                        keys.push(trimmed_text(data, a, k));
                        values.push(trimmed_text(data, k + 2, b));
                    },
                    None => {
                        if data[b - 1] == 0x3Au8 {
                            assert(t.last() == data@[b - 1]);
                            assert(data@.subrange(a as int, b - 1) =~= t.drop_last());
                            assert(yaml_entry(t) == Some((trim_spec(t.drop_last()), Seq::<u8>::empty())));
                            keys.push(trimmed_text(data, a, b - 1));
                            values.push(text_of(data, b, b));
                            assert(data@.subrange(b as int, b as int) =~= Seq::<u8>::empty());
                        } else {
                            assert(t.last() == data@[b - 1]);
                            assert(yaml_entry(t) is None);
                        }
                    },
                }
                proof {
                    assert(yaml_entries(nxt) == (match yaml_entry(t) {
                        Some(e) => yaml_entries(pre).push(e),
                        None => yaml_entries(pre),
                    }));
                    assert forall|q: int| 0 <= q < keys@.len() implies (#[trigger] keys@[q])@ == lossy_decode(
                        yaml_entries(nxt)[q].0,
                    ) by {
                        if q < kb.len() {
                            assert(keys@[q] == kb[q]);
                        }
                    }
                    assert forall|q: int| 0 <= q < values@.len() implies (#[trigger] values@[q])@ == lossy_decode(
                        yaml_entries(nxt)[q].1,
                    ) by {
                        if q < vb.len() {
                            assert(values@[q] == vb[q]);
                        }
                    }
                }
            } else {
                proof {
                    if a < b {
                        assert(t[0] == data@[a as int]);
                        if b - a >= 3 {
                            assert(t[1] == data@[a + 1] && t[2] == data@[a + 2]);
                        }
                    }
                    assert(yaml_entry(t) is None);
                    assert(yaml_entries(nxt) == yaml_entries(pre));
                }
            }
            i = i + 1;
        }
        assert(ls.subrange(0, i as int) =~= ls);
        let ghost es = yaml_entries(ls);
        assert(texts(keys@) =~= decoded(Seq::new(es.len(), |q: int| es[q].0)));
        assert(texts(values@) =~= decoded(Seq::new(es.len(), |q: int| es[q].1)));
        let mut cols: Vec<(String, Vec<String>)> = Vec::new();
        cols.push(("keys".to_owned(), keys));
        cols.push(("values".to_owned(), values));
        Ok(cols)
    }

    /// Rebuilds YAML text from a `keys` and a `values` column: a `---` line,
    /// then a line per key/value pair (as many as the shorter column holds).
    pub fn reconstruct(&self, columns: &[(String, Vec<String>)]) -> (r: Result<Vec<u8>, CpacError>)
        ensures
            columns@.len() != 2 ==> (r matches Err(e) && e is Other),
            columns@.len() == 2 ==> (r matches Ok(out) && {
                let ks = texts(columns@[0].1@);
                let vs = texts(columns@[1].1@);
                out@ == seq![0x2Du8, 0x2Du8, 0x2Du8, 0x0Au8] + yaml_body(
                    ks,
                    vs,
                    if ks.len() < vs.len() { ks.len() as int } else { vs.len() as int },
                )
            }),
    {
        if columns.len() != 2 {
            return Err(CpacError::Other("yaml: expected 2-column ColumnSet".to_owned()));
        }
        let keys = &columns[0].1;
        let values = &columns[1].1;
        let ghost ks = texts(keys@);
        let ghost vs = texts(values@);
        let n = if keys.len() < values.len() { keys.len() } else { values.len() };
        let mut out: Vec<u8> = Vec::new();
        out.push(0x2Du8);
        out.push(0x2Du8);
        out.push(0x2Du8);
        out.push(0x0Au8);
        let ghost head = out@;
        let mut i: usize = 0;
        while i < n
            invariant
                i <= n,
                n <= keys@.len(),
                n <= values@.len(),
                ks == texts(keys@),
                vs == texts(values@),
                head == seq![0x2Du8, 0x2Du8, 0x2Du8, 0x0Au8],
                out@ == head + yaml_body(ks, vs, i as int),
            decreases n - i,
        {
            let k = keys[i].as_str();
            let v = values[i].as_str();
            assert(k@ == ks[i as int] && v@ == vs[i as int]);
            let ghost before = out@;
            push_str(&mut out, k);
            if v.is_empty() {
                out.push(0x3Au8);
                out.push(0x0Au8);
            } else {
                out.push(0x3Au8);
                out.push(0x20u8);
                push_str(&mut out, v);
                out.push(0x0Au8);
            }
            assert(yaml_body(ks, vs, i + 1) == yaml_body(ks, vs, i as int) + yaml_line(ks[i as int], vs[i as int]) + seq![0x0Au8]);
            i = i + 1;
            assert(out@ =~= head + yaml_body(ks, vs, i as int));
        }
        Ok(out)
    }
}


/// The first position from `i` holding the byte `c`.
pub open spec fn first_byte(b: Seq<u8>, c: u8, i: int) -> Option<int>
    decreases b.len() - i,
{
    if i < 0 || i >= b.len() {
        None
    } else if b[i] == c {
        Some(i)
    } else {
        first_byte(b, c, i + 1)
    }
}

proof fn lemma_first_byte_bound(b: Seq<u8>, c: u8, i: int)
    ensures
        first_byte(b, c, i) matches Some(k) ==> 0 <= k < b.len() && b[k] == c,
    decreases b.len() - i,
{
    if i >= 0 && i < b.len() && b[i] != c {
        lemma_first_byte_bound(b, c, i + 1);
    }
}

fn find_byte(b: &[u8], lo: usize, hi: usize, c: u8) -> (r: Option<usize>)
    requires
        lo <= hi <= b@.len(),
    ensures
        match first_byte(b@.subrange(lo as int, hi as int), c, 0) {
            Some(k) => 0 <= k < hi - lo && r == Some((lo + k) as usize),
            None => r is None,
        },
{
    let ghost t = b@.subrange(lo as int, hi as int);
    proof {
        lemma_first_byte_bound(t, c, 0);
    }
    let mut i: usize = lo;
    while i < hi
        invariant
            lo <= i <= hi,
            hi <= b@.len(),
            t == b@.subrange(lo as int, hi as int),
            first_byte(t, c, 0) == first_byte(t, c, i - lo),
        decreases hi - i,
    {
        assert(t[i - lo] == b@[i as int]);
        if b[i] == c {
            return Some(i);
        }
        i = i + 1;
    }
    None
}

/// ASCII uppercase of a byte.
pub open spec fn upper_byte(c: u8) -> u8 {
    if 0x61 <= c <= 0x7A {
        (c - 32) as u8
    } else {
        c
    }
}

/// The log levels, in upper case: TRACE, DEBUG, INFO, WARN, WARNING, ERROR,
/// FATAL, CRITICAL.
pub open spec fn log_levels() -> Seq<Seq<u8>> {
    seq![
        seq![0x54u8, 0x52u8, 0x41u8, 0x43u8, 0x45u8],
        seq![0x44u8, 0x45u8, 0x42u8, 0x55u8, 0x47u8],
        seq![0x49u8, 0x4Eu8, 0x46u8, 0x4Fu8],
        seq![0x57u8, 0x41u8, 0x52u8, 0x4Eu8],
        seq![0x57u8, 0x41u8, 0x52u8, 0x4Eu8, 0x49u8, 0x4Eu8, 0x47u8],
        seq![0x45u8, 0x52u8, 0x52u8, 0x4Fu8, 0x52u8],
        seq![0x46u8, 0x41u8, 0x54u8, 0x41u8, 0x4Cu8],
        seq![0x43u8, 0x52u8, 0x49u8, 0x54u8, 0x49u8, 0x43u8, 0x41u8, 0x4Cu8],
    ]
}

/// Whether a word is a log level, ignoring ASCII case.
pub open spec fn is_level_word(w: Seq<u8>) -> bool {
    log_levels().contains(Seq::new(w.len(), |i: int| upper_byte(w[i])))
}

/// The level field: the word when it is a level, else empty.
pub open spec fn level_of(w: Seq<u8>) -> Seq<u8> {
    if is_level_word(w) { w } else { Seq::empty() }
}

/// The timestamp, level and message of a trimmed log line: the line cut at
/// its first two spaces (`<timestamp> <LEVEL> <message>`); a level that is
/// not a known level is dropped.
pub open spec fn log_fields(t: Seq<u8>) -> (Seq<u8>, Seq<u8>, Seq<u8>) {
    match first_byte(t, 0x20u8, 0) {
        None => (t, Seq::empty(), Seq::empty()),
        Some(i) => {
            let u = t.subrange(i + 1, t.len() as int);
            match first_byte(u, 0x20u8, 0) {
                None => (t.subrange(0, i), level_of(u), Seq::empty()),
                Some(j) => (t.subrange(0, i), level_of(u.subrange(0, j)), u.subrange(j + 1, u.len() as int)),
            }
        },
    }
}

/// The fields of the log lines that are not blank.
pub open spec fn log_rows(ls: Seq<Seq<u8>>) -> Seq<(Seq<u8>, Seq<u8>, Seq<u8>)>
    decreases ls.len(),
{
    if ls.len() == 0 {
        Seq::empty()
    } else if trim_spec(ls.last()).len() == 0 {
        log_rows(ls.drop_last())
    } else {
        log_rows(ls.drop_last()).push(log_fields(trim_spec(ls.last())))
    }
}

fn is_level(b: &[u8], lo: usize, hi: usize) -> (r: bool)
    requires
        lo <= hi <= b@.len(),
    ensures
        r == is_level_word(b@.subrange(lo as int, hi as int)),
{
    let ghost w = b@.subrange(lo as int, hi as int);
    let mut up: Vec<u8> = Vec::new();
    let mut i: usize = lo;
    while i < hi
        invariant
            lo <= i <= hi,
            hi <= b@.len(),
            w == b@.subrange(lo as int, hi as int),
            up@ == Seq::new((i - lo) as nat, |k: int| upper_byte(w[k])),
        decreases hi - i,
    {
        let c = b[i];
        let u: u8 = if 0x61 <= c && c <= 0x7A { c - 32 } else { c };
        assert(w[i - lo] == c);
        up.push(u);
        i = i + 1;
        assert(up@ =~= Seq::new((i - lo) as nat, |k: int| upper_byte(w[k])));
    }
    let ghost uw = Seq::new(w.len(), |k: int| upper_byte(w[k]));
    assert(up@ =~= uw);
    let l0: [u8; 5] = [0x54u8, 0x52u8, 0x41u8, 0x43u8, 0x45u8];
    let l1: [u8; 5] = [0x44u8, 0x45u8, 0x42u8, 0x55u8, 0x47u8];
    let l2: [u8; 4] = [0x49u8, 0x4Eu8, 0x46u8, 0x4Fu8];
    let l3: [u8; 4] = [0x57u8, 0x41u8, 0x52u8, 0x4Eu8];
    let l4: [u8; 7] = [0x57u8, 0x41u8, 0x52u8, 0x4Eu8, 0x49u8, 0x4Eu8, 0x47u8];
    let l5: [u8; 5] = [0x45u8, 0x52u8, 0x52u8, 0x4Fu8, 0x52u8];
    let l6: [u8; 5] = [0x46u8, 0x41u8, 0x54u8, 0x41u8, 0x4Cu8];
    let l7: [u8; 8] = [0x43u8, 0x52u8, 0x49u8, 0x54u8, 0x49u8, 0x43u8, 0x41u8, 0x4Cu8];
    let found = eq_bytes(up.as_slice(), &l0) || eq_bytes(up.as_slice(), &l1) || eq_bytes(up.as_slice(), &l2)
        || eq_bytes(up.as_slice(), &l3) || eq_bytes(up.as_slice(), &l4) || eq_bytes(up.as_slice(), &l5)
        || eq_bytes(up.as_slice(), &l6) || eq_bytes(up.as_slice(), &l7);
    proof {
        let lv = log_levels();
        assert(l0@ =~= lv[0] && l1@ =~= lv[1] && l2@ =~= lv[2] && l3@ =~= lv[3]);
        assert(l4@ =~= lv[4] && l5@ =~= lv[5] && l6@ =~= lv[6] && l7@ =~= lv[7]);
        if lv.contains(uw) {
            let q = choose|q: int| 0 <= q < lv.len() && lv[q] == uw;
            assert(0 <= q < 8);
        }
    }
    found
}

fn eq_bytes(a: &[u8], b: &[u8]) -> (r: bool)
    ensures
        r == (a@ == b@),
{
    if a.len() != b.len() {
        return false;
    }
    let mut i: usize = 0;
    while i < a.len()
        invariant
            i <= a@.len(),
            a@.len() == b@.len(),
            forall|q: int| 0 <= q < i ==> a@[q] == b@[q],
        decreases a.len() - i,
    {
        if a[i] != b[i] {
            return false;
        }
        i = i + 1;
    }
    assert(a@ =~= b@);
    true
}

impl LogHandler {
    /// Splits log text into `timestamp`, `level` and `message` columns, one
    /// row per line that is not blank (see `log_fields`). The text must be
    /// UTF-8.
    pub fn decompose(&self, data: &[u8]) -> (r: Result<Vec<(String, Vec<String>)>, CpacError>)
        requires
            data@.len() < usize::MAX,
        ensures
            r is Ok <==> valid_utf8(data@),
            r matches Err(e) ==> e is Other,
            r matches Ok(cols) ==> {
                let rows = log_rows(lines_spec(data@));
                &&& cols@.len() == 3
                &&& cols@[0].0@ == "timestamp"@
                &&& cols@[1].0@ == "level"@
                &&& cols@[2].0@ == "message"@
                &&& texts(cols@[0].1@) == decoded(Seq::new(rows.len(), |i: int| rows[i].0))
                &&& texts(cols@[1].1@) == decoded(Seq::new(rows.len(), |i: int| rows[i].1))
                &&& texts(cols@[2].1@) == decoded(Seq::new(rows.len(), |i: int| rows[i].2))
            },
    {
        match utf8_check(data) {
            Err(msg) => {
                let mut m = "log: invalid UTF-8: ".to_owned();
                m.append(msg.as_str());
                return Err(CpacError::Other(m));
            },
            Ok(()) => {},
        }
        let lines = all_lines(data);
        let ghost ls = lines_spec(data@);
        let mut ts: Vec<String> = Vec::new();
        let mut lv: Vec<String> = Vec::new();
        let mut ms: Vec<String> = Vec::new();
        let mut i: usize = 0;
        while i < lines.len()
            invariant
                i <= lines@.len(),
                lines@.len() == ls.len(),
                ls == lines_spec(data@),
                forall|k: int| 0 <= k < lines@.len() ==> (#[trigger] lines@[k]).0 <= lines@[k].1 <= data@.len()
                    && data@.subrange(lines@[k].0 as int, lines@[k].1 as int) == ls[k],
                ts@.len() == log_rows(ls.subrange(0, i as int)).len(),
                lv@.len() == ts@.len(),
                ms@.len() == ts@.len(),
                forall|q: int| 0 <= q < ts@.len() ==> (#[trigger] ts@[q])@ == lossy_decode(log_rows(ls.subrange(0, i as int))[q].0),
                forall|q: int| 0 <= q < lv@.len() ==> (#[trigger] lv@[q])@ == lossy_decode(log_rows(ls.subrange(0, i as int))[q].1),
                forall|q: int| 0 <= q < ms@.len() ==> (#[trigger] ms@[q])@ == lossy_decode(log_rows(ls.subrange(0, i as int))[q].2),
            decreases lines.len() - i,
        {
            let ghost pre = ls.subrange(0, i as int);
            let ghost nxt = ls.subrange(0, i + 1);
            assert(nxt.drop_last() =~= pre);
            assert(nxt.last() == ls[i as int]);
            let (lo, hi) = lines[i];
            let (a, b) = trim_bounds(data, lo, hi);
            let ghost t = data@.subrange(a as int, b as int);
            assert(t == trim_spec(ls[i as int]));
            if a < b {
                let ghost tb = ts@;
                let ghost lb = lv@;
                let ghost mb = ms@;
                let ghost f = log_fields(t);
                match find_byte(data, a, b, 0x20u8) {
                    None => {
                        ts.push(text_of(data, a, b));
                        lv.push(text_of(data, b, b));
                        ms.push(text_of(data, b, b));
                        assert(data@.subrange(b as int, b as int) =~= Seq::<u8>::empty());
                        assert(f == (t, Seq::<u8>::empty(), Seq::<u8>::empty()));
                    },
                    Some(sp) => {
                        assert(data@.subrange(a as int, sp as int) =~= t.subrange(0, sp - a));
                        let ghost u = t.subrange(sp - a + 1, t.len() as int);
                        assert(data@.subrange(sp + 1, b as int) =~= u);
                        ts.push(text_of(data, a, sp));
                        match find_byte(data, sp + 1, b, 0x20u8) {
                            None => {
                                if is_level(data, sp + 1, b) {
                                    lv.push(text_of(data, sp + 1, b));
                                } else {
                                    lv.push(text_of(data, b, b));
                                    assert(data@.subrange(b as int, b as int) =~= Seq::<u8>::empty());
                                }
                                ms.push(text_of(data, b, b));
                                assert(data@.subrange(b as int, b as int) =~= Seq::<u8>::empty());
                                assert(f == (t.subrange(0, sp - a), level_of(u), Seq::<u8>::empty()));
                            },
                            Some(sp2) => {
                                assert(data@.subrange(sp + 1, sp2 as int) =~= u.subrange(0, sp2 - sp - 1));
                                assert(data@.subrange(sp2 + 1, b as int) =~= u.subrange(sp2 - sp, u.len() as int));
                                if is_level(data, sp + 1, sp2) {
                                    lv.push(text_of(data, sp + 1, sp2));
                                } else {
                                    lv.push(text_of(data, b, b));
                                    assert(data@.subrange(b as int, b as int) =~= Seq::<u8>::empty());
                                }
                                ms.push(text_of(data, sp2 + 1, b));
                                assert(f == (t.subrange(0, sp - a), level_of(u.subrange(0, sp2 - sp - 1)), u.subrange(sp2 - sp, u.len() as int)));
                            },
                        }
                    },
                }
                proof {
                    assert(log_rows(nxt) == log_rows(pre).push(f));
                    assert forall|q: int| 0 <= q < ts@.len() implies (#[trigger] ts@[q])@ == lossy_decode(log_rows(nxt)[q].0) by {
                        if q < tb.len() {
                            assert(ts@[q] == tb[q]);
                        }
                    }
                    assert forall|q: int| 0 <= q < lv@.len() implies (#[trigger] lv@[q])@ == lossy_decode(log_rows(nxt)[q].1) by {
                        if q < lb.len() {
                            assert(lv@[q] == lb[q]);
                        }
                    }
                    assert forall|q: int| 0 <= q < ms@.len() implies (#[trigger] ms@[q])@ == lossy_decode(log_rows(nxt)[q].2) by {
                        if q < mb.len() {
                            assert(ms@[q] == mb[q]);
                        }
                    }
                }
            } else {
                assert(log_rows(nxt) == log_rows(pre));
            }
            i = i + 1;
        }
        assert(ls.subrange(0, i as int) =~= ls);
        let ghost rows = log_rows(ls);
        assert(texts(ts@) =~= decoded(Seq::new(rows.len(), |q: int| rows[q].0)));
        assert(texts(lv@) =~= decoded(Seq::new(rows.len(), |q: int| rows[q].1)));
        assert(texts(ms@) =~= decoded(Seq::new(rows.len(), |q: int| rows[q].2)));
        let mut cols: Vec<(String, Vec<String>)> = Vec::new();
        cols.push(("timestamp".to_owned(), ts));
        cols.push(("level".to_owned(), lv));
        cols.push(("message".to_owned(), ms));
        Ok(cols)
    }
}


/// The log text of the first `n` rows: timestamp, then the level and the
/// message each after a space when not empty, then a line feed.
pub open spec fn log_body(ts: Seq<Seq<char>>, lv: Seq<Seq<char>>, ms: Seq<Seq<char>>, n: int) -> Seq<u8>
    decreases n,
{
    if n <= 0 {
        Seq::empty()
    } else {
        log_body(ts, lv, ms, n - 1) + encode_utf8(ts[n - 1]) + (if lv[n - 1].len() == 0 {
            Seq::empty()
        } else {
            seq![0x20u8] + encode_utf8(lv[n - 1])
        }) + (if ms[n - 1].len() == 0 {
            Seq::empty()
        } else {
            seq![0x20u8] + encode_utf8(ms[n - 1])
        }) + seq![0x0Au8]
    }
}

impl LogHandler {
    /// Rebuilds log text from `timestamp`, `level` and `message` columns, a
    /// line per timestamp. Shorter level or message columns would be read
    /// past their end, so they are not accepted.
    pub fn reconstruct(&self, columns: &[(String, Vec<String>)]) -> (r: Result<Vec<u8>, CpacError>)
        requires
            columns@.len() == 3 ==> columns@[1].1@.len() >= columns@[0].1@.len() && columns@[2].1@.len()
                >= columns@[0].1@.len(),
        ensures
            columns@.len() != 3 ==> (r matches Err(e) && e is Other),
            columns@.len() == 3 ==> (r matches Ok(out) && out@ == log_body(
                texts(columns@[0].1@),
                texts(columns@[1].1@),
                texts(columns@[2].1@),
                columns@[0].1@.len() as int,
            )),
    {
        if columns.len() != 3 {
            return Err(CpacError::Other("log: expected 3-column ColumnSet".to_owned()));
        }
        let ts = &columns[0].1;
        let lv = &columns[1].1;
        let ms = &columns[2].1;
        let ghost tv = texts(ts@);
        let ghost lvv = texts(lv@);
        let ghost mv = texts(ms@);
        let mut out: Vec<u8> = Vec::new();
        let mut i: usize = 0;
        while i < ts.len()
            invariant
                i <= ts@.len(),
                ts@.len() <= lv@.len(),
                ts@.len() <= ms@.len(),
                tv == texts(ts@),
                lvv == texts(lv@),
                mv == texts(ms@),
                out@ == log_body(tv, lvv, mv, i as int),
            decreases ts.len() - i,
        {
            let t = ts[i].as_str();
            let l = lv[i].as_str();
            let m = ms[i].as_str();
            assert(t@ == tv[i as int] && l@ == lvv[i as int] && m@ == mv[i as int]);
            let ghost before = out@;
            push_str(&mut out, t);
            let ghost a1 = out@;
            if !l.is_empty() {
                out.push(0x20u8);
                push_str(&mut out, l);
            }
            let ghost a2 = out@;
            if !m.is_empty() {
                out.push(0x20u8);
                push_str(&mut out, m);
            }
            out.push(0x0Au8);
            proof {
                let lp: Seq<u8> = if lvv[i as int].len() == 0 { Seq::empty() } else { seq![0x20u8] + encode_utf8(lvv[i as int]) };
                let mp: Seq<u8> = if mv[i as int].len() == 0 { Seq::empty() } else { seq![0x20u8] + encode_utf8(mv[i as int]) };
                assert(a2 =~= a1 + lp);
                assert(out@ =~= before + encode_utf8(tv[i as int]) + lp + mp + seq![0x0Au8]);
            }
            i = i + 1;
        }
        Ok(out)
    }
}

/// Texts joined by commas.
pub open spec fn comma_joined(fs: Seq<Seq<char>>) -> Seq<u8>
    decreases fs.len(),
{
    if fs.len() == 0 {
        Seq::empty()
    } else if fs.len() == 1 {
        encode_utf8(fs[0])
    } else {
        comma_joined(fs.drop_last()) + seq![0x2Cu8] + encode_utf8(fs.last())
    }
}

/// The column names.
pub open spec fn column_names(cols: Seq<(String, Vec<String>)>) -> Seq<Seq<char>> {
    Seq::new(cols.len(), |j: int| cols[j].0@)
}

/// Row `r` of the columns: each column's value `r`, or empty past its end.
pub open spec fn csv_row(cols: Seq<(String, Vec<String>)>, r: int) -> Seq<Seq<char>> {
    Seq::new(cols.len(), |j: int| if r < cols[j].1@.len() { cols[j].1@[r]@ } else { Seq::empty() })
}

/// The CSV lines of the first `n` rows.
pub open spec fn csv_rows_text(cols: Seq<(String, Vec<String>)>, n: int) -> Seq<u8>
    decreases n,
{
    if n <= 0 {
        Seq::empty()
    } else {
        csv_rows_text(cols, n - 1) + comma_joined(csv_row(cols, n - 1)) + seq![0x0Au8]
    }
}

/// Appends `fs[0..k]` joined by commas.
fn push_joined_names(out: &mut Vec<u8>, columns: &[(String, Vec<String>)])
    ensures
        final(out)@ == old(out)@ + comma_joined(column_names(columns@)),
{
    let ghost start = out@;
    let ghost names = column_names(columns@);
    let mut j: usize = 0;
    while j < columns.len()
        invariant
            j <= columns@.len(),
            names == column_names(columns@),
            out@ == start + comma_joined(names.subrange(0, j as int)),
        decreases columns.len() - j,
    {
        let ghost before = out@;
        if j > 0 {
            out.push(0x2Cu8);
        }
        push_str(out, columns[j].0.as_str());
        proof {
            let p = names.subrange(0, j + 1);
            assert(p.drop_last() =~= names.subrange(0, j as int));
            assert(p.last() == columns@[j as int].0@);
            if j == 0 {
                assert(comma_joined(names.subrange(0, 0)) =~= Seq::<u8>::empty());
                assert(p.len() == 1 && p[0] == columns@[0].0@);
            }
        }
        j = j + 1;
        assert(out@ =~= start + comma_joined(names.subrange(0, j as int)));
    }
    assert(names.subrange(0, j as int) =~= names);
}

fn push_row(out: &mut Vec<u8>, columns: &[(String, Vec<String>)], r: usize)
    ensures
        final(out)@ == old(out)@ + comma_joined(csv_row(columns@, r as int)),
{
    let ghost start = out@;
    let ghost row = csv_row(columns@, r as int);
    let mut j: usize = 0;
    while j < columns.len()
        invariant
            j <= columns@.len(),
            row == csv_row(columns@, r as int),
            out@ == start + comma_joined(row.subrange(0, j as int)),
        decreases columns.len() - j,
    {
        if j > 0 {
            out.push(0x2Cu8);
        }
        let vals = &columns[j].1;
        if r < vals.len() {
            push_str(out, vals[r].as_str());
        } else {
            assert(encode_utf8(Seq::<char>::empty()) =~= Seq::<u8>::empty());
        }
        proof {
            let p = row.subrange(0, j + 1);
            assert(p.drop_last() =~= row.subrange(0, j as int));
            assert(p.last() == row[j as int]);
            if j == 0 {
                assert(comma_joined(row.subrange(0, 0)) =~= Seq::<u8>::empty());
                assert(p.len() == 1 && p[0] == row[0]);
            }
        }
        j = j + 1;
        assert(out@ =~= start + comma_joined(row.subrange(0, j as int)));
    }
    assert(row.subrange(0, j as int) =~= row);
}

impl CsvHandler {
    /// Splits CSV text into one named column per header field (see
    /// `parse_csv`).
    pub fn decompose(&self, data: &[u8]) -> (r: Result<Vec<(String, Vec<String>)>, CpacError>)
        requires
            data@.len() < usize::MAX,
        ensures
            r is Ok <==> valid_utf8(data@) && lines_spec(data@).len() > 0,
            r matches Err(e) ==> e is Transform,
            r matches Ok(cols) ==> {
                &&& cols@.len() == csv_header_bytes(data@).len()
                &&& forall|j: int| 0 <= j < cols@.len() ==> (#[trigger] cols@[j]).0@ == lossy_decode(csv_header_bytes(data@)[j])
                    && texts(cols@[j].1@) == csv_column(data@, j)
            },
    {
        let (headers, columns) = match parse_csv(data) {
            Ok(p) => p,
            Err(e) => {
                return Err(e);
            },
        };
        let mut out: Vec<(String, Vec<String>)> = Vec::new();
        let mut hs = headers;
        let mut cs = columns;
        let ghost h0 = hs@;
        let ghost c0 = cs@;
        let n = hs.len();
        let mut j: usize = 0;
        while j < n
            invariant
                j <= n,
                n == h0.len(),
                h0.len() == c0.len(),
                hs@ == h0.subrange(j as int, n as int),
                cs@ == c0.subrange(j as int, n as int),
                out@.len() == j,
                forall|q: int| 0 <= q < j ==> (#[trigger] out@[q]).0 == h0[q] && out@[q].1 == c0[q],
            decreases n - j,
        {
            let h = hs.remove(0);
            let c = cs.remove(0);
            assert(h == h0[j as int] && c == c0[j as int]);
            out.push((h, c));
            j = j + 1;
            assert(hs@ =~= h0.subrange(j as int, n as int));
            assert(cs@ =~= c0.subrange(j as int, n as int));
        }
        proof {
            assert forall|q: int| 0 <= q < out@.len() implies (#[trigger] out@[q]).0@ == lossy_decode(csv_header_bytes(data@)[q])
                && texts(out@[q].1@) == csv_column(data@, q) by {
                assert(texts(c0[q]@) =~= Seq::new(c0[q]@.len(), |m: int| c0[q]@[m]@));
            }
        }
        Ok(out)
    }

    /// Rebuilds CSV text: the column names joined by commas, then one line
    /// per value of the first column, each column's value (empty past its
    /// end) joined by commas. A column set without columns has no first
    /// column to count rows by, so it is not accepted.
    pub fn reconstruct(&self, columns: &[(String, Vec<String>)]) -> (r: Result<Vec<u8>, CpacError>)
        requires
            columns@.len() > 0,
        ensures
            r matches Ok(out) && out@ == comma_joined(column_names(columns@)) + seq![0x0Au8] + csv_rows_text(
                columns@,
                columns@[0].1@.len() as int,
            ),
    {
        let mut out: Vec<u8> = Vec::new();
        push_joined_names(&mut out, columns);
        out.push(0x0Au8);
        let ghost head = out@;
        let num_rows = columns[0].1.len();
        let mut r: usize = 0;
        while r < num_rows
            invariant
                r <= num_rows,
                out@ == head + csv_rows_text(columns@, r as int),
            decreases num_rows - r,
        {
            push_row(&mut out, columns, r);
            out.push(0x0Au8);
            r = r + 1;
            assert(out@ =~= head + csv_rows_text(columns@, r as int));
        }
        Ok(out)
    }
}


impl XmlHandler {
    /// Extracts the text of XML elements into one column per tag (see
    /// `extract_element_columns`). The text must be UTF-8.
    pub fn decompose(&self, data: &[u8]) -> (r: Result<Vec<(String, Vec<String>)>, CpacError>)
        ensures
            r is Ok <==> valid_utf8(data@),
            r matches Err(e) ==> e is Transform,
            r matches Ok(cols) ==> exists|g: Seq<(Seq<u8>, Seq<Seq<u8>>)>| #[trigger] is_grouping(xml_events(data@, 0), g)
                && columns_view(cols@) == columns_as_text(g),
    {
        match utf8_check(data) {
            Err(msg) => {
                let mut m = "XML: invalid UTF-8: ".to_owned();
                m.append(msg.as_str());
                return Err(CpacError::Transform(m));
            },
            Ok(()) => {},
        }
        let text = match string_from_utf8(crate::bytes::slice_to_vec(data, 0, data.len())) {
            Some(t) => t,
            None => {
                assert(data@.subrange(0, data@.len() as int) =~= data@);
                return Err(CpacError::Transform("XML: invalid UTF-8".to_owned()));
            },
        };
        proof {
            assert(data@.subrange(0, data@.len() as int) =~= data@);
            vstd::utf8::decode_utf8_encode_utf8(data@);
        }
        Ok(extract_element_columns(text.as_str()))
    }

    /// XML is not rebuilt from columns: always an error.
    pub fn reconstruct(&self, _columns: &[(String, Vec<String>)]) -> (r: Result<Vec<u8>, CpacError>)
        ensures
            r matches Err(e) && e is Transform,
    {
        Err(CpacError::Transform("XML reconstruct: not supported".to_owned()))
    }
}


/// No line feed or carriage return among the bytes.
pub open spec fn no_line_break(b: Seq<u8>) -> bool {
    forall|i: int| 0 <= i < b.len() ==> #[trigger] b[i] != 0x0Au8 && b[i] != 0x0Du8
}

/// No whitespace at either end of the bytes.
pub open spec fn no_edge_ws(b: Seq<u8>) -> bool {
    ws_len_at(b, 0) == 0 && ws_len_before(b, b.len() as int) == 0
}

/// A key and value whose YAML line reads back as them: no line breaks, no
/// whitespace at their ends, no `": "` in the key, and a key that starts
/// neither a comment (`#`) nor a document marker (`---`).
pub open spec fn yaml_pair_ok(k: Seq<char>, v: Seq<char>) -> bool {
    let ke = encode_utf8(k);
    let ve = encode_utf8(v);
    &&& no_line_break(ke)
    &&& no_line_break(ve)
    &&& no_edge_ws(ke)
    &&& no_edge_ws(ve)
    &&& first_pair(ke, 0x3Au8, 0x20u8, 0) is None
    &&& !(ke.len() > 0 && ke[0] == 0x23u8)
    &&& !(ke.len() >= 3 && ke[0] == 0x2Du8 && ke[1] == 0x2Du8 && ke[2] == 0x2Du8)
}

proof fn lemma_lines_shift(p: Seq<u8>, q: Seq<u8>, j: int, st: int)
    requires
        0 <= st <= j <= q.len(),
    ensures
        lines_acc(p + q, p.len() + j, p.len() + st) == lines_acc(q, j, st),
    decreases q.len() - j,
{
    let b = p + q;
    let o = p.len() as int;
    if j < q.len() {
        assert(b[o + j] == q[j]);
        if q[j] == 0x0Au8 {
            assert(b.subrange(o + st, o + j) =~= q.subrange(st, j));
            lemma_lines_shift(p, q, j + 1, j + 1);
        } else {
            lemma_lines_shift(p, q, j + 1, st);
        }
    } else {
        assert(b.subrange(o + st, b.len() as int) =~= q.subrange(st, q.len() as int));
    }
}

proof fn lemma_lines_prefix(p: Seq<u8>, q: Seq<u8>, i: int, st: int)
    requires
        0 <= st <= i <= p.len(),
        i == p.len() ==> st == i,
        p.len() > 0 ==> p.last() == 0x0Au8,
    ensures
        lines_acc(p + q, i, st) == lines_acc(p, i, st) + lines_acc(p + q, p.len() as int, p.len() as int),
    decreases p.len() - i,
{
    let b = p + q;
    if i < p.len() {
        assert(b[i] == p[i]);
        if p[i] == 0x0Au8 {
            assert(b.subrange(st, i) =~= p.subrange(st, i));
            lemma_lines_prefix(p, q, i + 1, i + 1);
            assert(lines_acc(b, i, st) == seq![strip_cr(p.subrange(st, i))] + lines_acc(b, i + 1, i + 1));
        } else {
            assert(i + 1 < p.len() || p[i] == p.last());
            lemma_lines_prefix(p, q, i + 1, st);
        }
    } else {
        assert(lines_acc(p, i, st) =~= Seq::<Seq<u8>>::empty());
    }
}

proof fn lemma_lines_one(x: Seq<u8>, j: int)
    requires
        0 <= j <= x.len(),
        forall|i: int| 0 <= i < x.len() ==> #[trigger] x[i] != 0x0Au8,
    ensures
        lines_acc(x + seq![0x0Au8], j, 0) == seq![strip_cr(x)],
    decreases x.len() - j,
{
    let q = x + seq![0x0Au8];
    if j < x.len() {
        assert(q[j] == x[j]);
        lemma_lines_one(x, j + 1);
    } else {
        assert(q[j] == 0x0Au8);
        assert(q.subrange(0, j) =~= x);
        assert(lines_acc(q, j + 1, j + 1) =~= Seq::<Seq<u8>>::empty());
    }
}

/// Appending a line and a line feed to text that ends a line adds that line.
pub(crate) proof fn lemma_lines_append(p: Seq<u8>, x: Seq<u8>)
    requires
        p.len() > 0 ==> p.last() == 0x0Au8,
        forall|i: int| 0 <= i < x.len() ==> #[trigger] x[i] != 0x0Au8,
    ensures
        lines_spec(p + (x + seq![0x0Au8])) == lines_spec(p).push(strip_cr(x)),
{
    let q = x + seq![0x0Au8];
    lemma_lines_prefix(p, q, 0, 0);
    lemma_lines_shift(p, q, 0, 0);
    lemma_lines_one(x, 0);
    assert(lines_spec(p).push(strip_cr(x)) =~= lines_spec(p) + seq![strip_cr(x)]);
}

proof fn lemma_first_pair_none(b: Seq<u8>, c1: u8, c2: u8, i: int, k: int)
    requires
        first_pair(b, c1, c2, i) is None,
        0 <= i <= k,
        k + 1 < b.len(),
    ensures
        !(b[k] == c1 && b[k + 1] == c2),
    decreases k - i,
{
    if i < k {
        lemma_first_pair_none(b, c1, c2, i + 1, k);
    }
}

proof fn lemma_first_pair_skip(b: Seq<u8>, c1: u8, c2: u8, i: int, m: int)
    requires
        0 <= i <= m,
        forall|k: int| i <= k < m ==> !(#[trigger] b[k] == c1 && b[k + 1] == c2),
        m + 1 < b.len(),
    ensures
        first_pair(b, c1, c2, i) == first_pair(b, c1, c2, m),
    decreases m - i,
{
    if i < m {
        lemma_first_pair_skip(b, c1, c2, i + 1, m);
    }
}

proof fn lemma_first_pair_absent(b: Seq<u8>, c1: u8, c2: u8, i: int)
    requires
        0 <= i,
        forall|k: int| i <= k && k + 1 < b.len() ==> !(#[trigger] b[k] == c1 && b[k + 1] == c2),
    ensures
        first_pair(b, c1, c2, i) is None,
    decreases b.len() - i,
{
    if i + 1 < b.len() {
        lemma_first_pair_absent(b, c1, c2, i + 1);
    }
}

pub(crate) proof fn lemma_trim_no_edge(b: Seq<u8>)
    requires
        no_edge_ws(b),
    ensures
        trim_spec(b) == b,
{
    if b.len() > 0 {
        assert(trim_start_from(b, 0) == 0);
        assert(trim_end_to(b, 0, b.len() as int) == b.len());
    }
    assert(b.subrange(0, b.len() as int) =~= b);
}

/// A valid key/value pair's line is its own trim and yields the pair.
proof fn lemma_yaml_line_entry(k: Seq<char>, v: Seq<char>)
    requires
        yaml_pair_ok(k, v),
    ensures
        trim_spec(yaml_line(k, v)) == yaml_line(k, v),
        strip_cr(yaml_line(k, v)) == yaml_line(k, v),
        forall|i: int| 0 <= i < yaml_line(k, v).len() ==> #[trigger] yaml_line(k, v)[i] != 0x0Au8,
        yaml_entry(yaml_line(k, v)) == Some((encode_utf8(k), encode_utf8(v))),
{
    let ke = encode_utf8(k);
    let ve = encode_utf8(v);
    let l = yaml_line(k, v);
    let n = ke.len() as int;
    lemma_trim_no_edge(ke);
    lemma_trim_no_edge(ve);
    assert(forall|i: int| 0 <= i < n ==> l[i] == ke[i]);
    assert(l[n] == 0x3Au8);
    if v.len() == 0 {
        assert(ve =~= Seq::<u8>::empty());
        assert(l.len() == n + 1);
    } else {
        assert(ve.len() > 0) by {
            vstd::utf8::encode_utf8_first_scalar(v);
        }
        assert(l[n + 1] == 0x20u8);
        assert(forall|i: int| 0 <= i < ve.len() ==> l[n + 2 + i] == ve[i]);
        assert(l.len() == n + 2 + ve.len());
    }
    // The line has no whitespace at its ends.
    assert(ws_len_at(l, 0) == 0) by {
        if n >= 3 {
            assert(l[0] == ke[0] && l[1] == ke[1] && l[2] == ke[2]);
        } else if n == 2 {
            assert(l[0] == ke[0] && l[1] == ke[1]);
        } else if n == 1 {
            assert(l[0] == ke[0]);
        }
    }
    assert(ws_len_before(l, l.len() as int) == 0) by {
        let m = l.len() as int;
        if v.len() > 0 {
            let w = ve.len() as int;
            if w >= 3 {
                assert(l[m - 1] == ve[w - 1] && l[m - 2] == ve[w - 2] && l[m - 3] == ve[w - 3]);
            } else if w == 2 {
                assert(l[m - 1] == ve[1] && l[m - 2] == ve[0] && l[m - 3] == 0x20u8);
            } else {
                assert(l[m - 1] == ve[0] && l[m - 2] == 0x20u8);
            }
        }
    }
    lemma_trim_no_edge(l);
    // No line breaks.
    assert forall|i: int| 0 <= i < l.len() implies #[trigger] l[i] != 0x0Au8 && l[i] != 0x0Du8 by {
        if i < n {
            assert(l[i] == ke[i]);
        } else if v.len() > 0 && i >= n + 2 {
            assert(l[i] == ve[i - n - 2]);
        }
    }
    assert(l.last() != 0x0Du8) by {
        assert(l[l.len() - 1] != 0x0Du8);
    }
    // Not a comment and not a document marker.
    assert(l.len() > 0 && l[0] != 0x23u8);
    assert(!(l.len() >= 3 && l[0] == 0x2Du8 && l[1] == 0x2Du8 && l[2] == 0x2Du8)) by {
        if n >= 3 {
            assert(l[0] == ke[0] && l[1] == ke[1] && l[2] == ke[2]);
        }
    }
    // The first ": " is the separator, if any.
    assert forall|j: int| 0 <= j < n - 1 implies !(#[trigger] l[j] == 0x3Au8 && l[j + 1] == 0x20u8) by {
        lemma_first_pair_none(ke, 0x3Au8, 0x20u8, 0, j);
        assert(l[j] == ke[j] && l[j + 1] == ke[j + 1]);
    }
    if v.len() > 0 {
        assert forall|j: int| 0 <= j < n implies !(#[trigger] l[j] == 0x3Au8 && l[j + 1] == 0x20u8) by {
            if j == n - 1 {
                assert(l[j + 1] == 0x3Au8);
            }
        }
        lemma_first_pair_skip(l, 0x3Au8, 0x20u8, 0, n);
        assert(first_pair(l, 0x3Au8, 0x20u8, 0) == Some(n));
        assert(l.subrange(0, n) =~= ke);
        assert(l.subrange(n + 2, l.len() as int) =~= ve);
    } else {
        assert forall|j: int| 0 <= j && j + 1 < l.len() implies !(#[trigger] l[j] == 0x3Au8 && l[j + 1] == 0x20u8) by {
            if j == n - 1 {
                assert(l[j + 1] == 0x3Au8);
            }
        }
        lemma_first_pair_absent(l, 0x3Au8, 0x20u8, 0);
        assert(l.drop_last() =~= ke);
    }
}

/// Bytes below 0x80 are valid UTF-8.
pub(crate) proof fn lemma_ascii_valid(b: Seq<u8>)
    requires
        forall|i: int| 0 <= i < b.len() ==> #[trigger] b[i] < 0x80,
    ensures
        valid_utf8(b),
    decreases b.len(),
{
    if b.len() > 0 {
        let c = b[0];
        assert((c & 0x7Fu8) <= 0x7Fu8) by (bit_vector);
        assert(vstd::utf8::pop_first_scalar(b) =~= b.drop_first());
        lemma_ascii_valid(b.drop_first());
    }
}

proof fn lemma_yaml_head()
    ensures
        valid_utf8(seq![0x2Du8, 0x2Du8, 0x2Du8, 0x0Au8]),
        yaml_entries(lines_spec(seq![0x2Du8, 0x2Du8, 0x2Du8, 0x0Au8])) =~= Seq::<(Seq<u8>, Seq<u8>)>::empty(),
{
    let head = seq![0x2Du8, 0x2Du8, 0x2Du8, 0x0Au8];
    let dashes = seq![0x2Du8, 0x2Du8, 0x2Du8];
    lemma_ascii_valid(head);
    assert(head =~= Seq::<u8>::empty() + (dashes + seq![0x0Au8]));
    lemma_lines_append(Seq::<u8>::empty(), dashes);
    assert(lines_spec(Seq::<u8>::empty()) =~= Seq::<Seq<u8>>::empty());
    assert(strip_cr(dashes) == dashes);
    let ls = lines_spec(head);
    assert(ls =~= seq![dashes]);
    assert(no_edge_ws(dashes));
    lemma_trim_no_edge(dashes);
    assert(ls.last() == dashes);
    assert(trim_spec(ls.last()) == dashes);
    assert(yaml_entry(dashes) is None);
    assert(ls.drop_last() =~= Seq::<Seq<u8>>::empty());
    assert(yaml_entries(ls) == yaml_entries(ls.drop_last()));
    assert(yaml_entries(Seq::<Seq<u8>>::empty()) =~= Seq::<(Seq<u8>, Seq<u8>)>::empty());
}

#[verifier::rlimit(30)]
proof fn lemma_yaml_step(prev: Seq<u8>, k: Seq<char>, v: Seq<char>)
    requires
        valid_utf8(prev),
        prev.len() > 0,
        prev.last() == 0x0Au8,
        yaml_pair_ok(k, v),
    ensures
        valid_utf8(prev + (yaml_line(k, v) + seq![0x0Au8])),
        yaml_entries(lines_spec(prev + (yaml_line(k, v) + seq![0x0Au8])))
            == yaml_entries(lines_spec(prev)).push((encode_utf8(k), encode_utf8(v))),
{
    broadcast use vstd::utf8::encode_utf8_valid_utf8, vstd::utf8::valid_utf8_concat;
    let l = yaml_line(k, v);
    lemma_yaml_line_entry(k, v);
    lemma_lines_append(prev, l);
    let ls = lines_spec(prev).push(l);
    assert(ls.drop_last() =~= lines_spec(prev));
    assert(ls.last() == l);
    lemma_ascii_valid(seq![0x3Au8]);
    lemma_ascii_valid(seq![0x3Au8, 0x20u8]);
    lemma_ascii_valid(seq![0x0Au8]);
    assert(valid_utf8(encode_utf8(k)) && valid_utf8(encode_utf8(v)));
    if v.len() == 0 {
        assert(valid_utf8(encode_utf8(k) + seq![0x3Au8]));
    } else {
        assert(valid_utf8(encode_utf8(k) + seq![0x3Au8, 0x20u8]));
        assert(valid_utf8(encode_utf8(k) + seq![0x3Au8, 0x20u8] + encode_utf8(v)));
    }
    assert(valid_utf8(l + seq![0x0Au8]));
}

/// The YAML text of valid pairs is valid UTF-8 and its entries are the pairs.
proof fn lemma_yaml_text_lines(ks: Seq<Seq<char>>, vs: Seq<Seq<char>>, n: int)
    requires
        0 <= n <= ks.len(),
        ks.len() == vs.len(),
        forall|i: int| 0 <= i < ks.len() ==> #[trigger] yaml_pair_ok(ks[i], vs[i]),
    ensures
        valid_utf8(seq![0x2Du8, 0x2Du8, 0x2Du8, 0x0Au8] + yaml_body(ks, vs, n)),
        yaml_entries(lines_spec(seq![0x2Du8, 0x2Du8, 0x2Du8, 0x0Au8] + yaml_body(ks, vs, n)))
            == Seq::new(n as nat, |i: int| (encode_utf8(ks[i]), encode_utf8(vs[i]))),
    decreases n,
{
    let head = seq![0x2Du8, 0x2Du8, 0x2Du8, 0x0Au8];
    let out = head + yaml_body(ks, vs, n);
    if n == 0 {
        assert(out =~= head);
        lemma_yaml_head();
    } else {
        lemma_yaml_text_lines(ks, vs, n - 1);
        let body = yaml_body(ks, vs, n - 1);
        let prev = head + body;
        let k = ks[n - 1];
        let v = vs[n - 1];
        assert(yaml_pair_ok(k, v));
        assert(out =~= prev + (yaml_line(k, v) + seq![0x0Au8]));
        assert(prev.last() == 0x0Au8) by {
            if body.len() > 0 {
                assert(prev[prev.len() - 1] == body[body.len() - 1]);
            }
        }
        lemma_yaml_step(prev, k, v);
        assert(yaml_entries(lines_spec(out)) =~= Seq::new(n as nat, |i: int| (encode_utf8(ks[i]), encode_utf8(vs[i]))));
    }
}

/// Rebuilding YAML from keys and values and splitting it again gives the
/// keys and values back, when each pair reads back as itself (see
/// `yaml_pair_ok`): the text `YamlHandler::reconstruct` writes is UTF-8, and
/// the entries `YamlHandler::decompose` reads from it decode to the pairs.
pub proof fn lemma_yaml_roundtrip(ks: Seq<Seq<char>>, vs: Seq<Seq<char>>)
    requires
        ks.len() == vs.len(),
        forall|i: int| 0 <= i < ks.len() ==> #[trigger] yaml_pair_ok(ks[i], vs[i]),
    ensures
        ({
            let out = seq![0x2Du8, 0x2Du8, 0x2Du8, 0x0Au8] + yaml_body(ks, vs, ks.len() as int);
            let es = yaml_entries(lines_spec(out));
            &&& valid_utf8(out)
            &&& decoded(Seq::new(es.len(), |i: int| es[i].0)) == ks
            &&& decoded(Seq::new(es.len(), |i: int| es[i].1)) == vs
        }),
{
    broadcast use vstd::utf8::encode_utf8_valid_utf8, vstd::utf8::encode_utf8_decode_utf8;
    lemma_yaml_text_lines(ks, vs, ks.len() as int);
    let out = seq![0x2Du8, 0x2Du8, 0x2Du8, 0x0Au8] + yaml_body(ks, vs, ks.len() as int);
    let es = yaml_entries(lines_spec(out));
    assert(decoded(Seq::new(es.len(), |i: int| es[i].0)) =~= ks) by {
        assert forall|i: int| 0 <= i < ks.len() implies lossy_decode(encode_utf8(ks[i])) == ks[i] by {
            assert(valid_utf8(encode_utf8(ks[i])));
        }
    }
    assert(decoded(Seq::new(es.len(), |i: int| es[i].1)) =~= vs) by {
        assert forall|i: int| 0 <= i < vs.len() implies lossy_decode(encode_utf8(vs[i])) == vs[i] by {
            assert(valid_utf8(encode_utf8(vs[i])));
        }
    }
}

} // verus!
