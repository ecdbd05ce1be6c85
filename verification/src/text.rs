//! Byte-level text helpers: Unicode whitespace trimming of UTF-8 bytes, line
//! splitting as `str::lines` does it, and substring search.

use vstd::prelude::*;

verus! {

/// The three-byte UTF-8 encodings of Unicode whitespace (U+1680, U+2000 to
/// U+200A, U+2028, U+2029, U+202F, U+205F, U+3000).
pub open spec fn is_ws3(x: u8, y: u8, z: u8) -> bool {
    (x == 0xE1 && y == 0x9A && z == 0x80)
    || (x == 0xE2 && y == 0x80 && ((0x80 <= z <= 0x8A) || z == 0xA8 || z == 0xA9 || z == 0xAF))
    || (x == 0xE2 && y == 0x81 && z == 0x9F)
    || (x == 0xE3 && y == 0x80 && z == 0x80)
}

/// Length of the encoding of a Unicode whitespace character starting at `i`,
/// or 0 when none starts there.
pub open spec fn ws_len_at(b: Seq<u8>, i: int) -> int {
    if i < 0 || i >= b.len() {
        0
    } else if (0x09 <= b[i] <= 0x0D) || b[i] == 0x20 {
        1
    } else if i + 1 < b.len() && b[i] == 0xC2 && (b[i + 1] == 0x85 || b[i + 1] == 0xA0) {
        2
    } else if i + 2 < b.len() && is_ws3(b[i], b[i + 1], b[i + 2]) {
        3
    } else {
        0
    }
}

/// Length of the encoding of a Unicode whitespace character ending just before
/// `j`, or 0 when none ends there.
pub open spec fn ws_len_before(b: Seq<u8>, j: int) -> int {
    if j < 1 || j > b.len() {
        0
    } else if (0x09 <= b[j - 1] <= 0x0D) || b[j - 1] == 0x20 {
        1
    } else if j >= 2 && b[j - 2] == 0xC2 && (b[j - 1] == 0x85 || b[j - 1] == 0xA0) {
        2
    } else if j >= 3 && is_ws3(b[j - 3], b[j - 2], b[j - 1]) {
        3
    } else {
        0
    }
}

/// Where leading whitespace from `i` ends.
pub open spec fn trim_start_from(b: Seq<u8>, i: int) -> int
    decreases b.len() - i,
{
    if i < 0 || i >= b.len() {
        b.len() as int
    } else if ws_len_at(b, i) == 0 {
        i
    } else {
        trim_start_from(b, i + ws_len_at(b, i))
    }
}

/// Where trailing whitespace before `j` starts, not going below `lo`.
pub open spec fn trim_end_to(b: Seq<u8>, lo: int, j: int) -> int
    decreases j,
{
    if j <= lo || j <= 0 {
        j
    } else if ws_len_before(b, j) == 0 || j - ws_len_before(b, j) < lo {
        j
    } else {
        trim_end_to(b, lo, j - ws_len_before(b, j))
    }
}

/// `b` without leading and trailing Unicode whitespace.
pub open spec fn trim_spec(b: Seq<u8>) -> Seq<u8> {
    let s = trim_start_from(b, 0);
    b.subrange(s, trim_end_to(b, s, b.len() as int))
}

/// `b` without leading Unicode whitespace.
pub open spec fn trim_start_spec(b: Seq<u8>) -> Seq<u8> {
    b.subrange(trim_start_from(b, 0), b.len() as int)
}

/// `s` without one trailing carriage return.
pub open spec fn strip_cr(s: Seq<u8>) -> Seq<u8> {
    if s.len() > 0 && s.last() == 0x0D {
        s.drop_last()
    } else {
        s
    }
}

/// The lines of `b` from position `i`, the current line having started at
/// `start`: each ends at a line feed (which, with a carriage return before it,
/// is dropped); a last line without a line feed counts when not empty.
pub open spec fn lines_acc(b: Seq<u8>, i: int, start: int) -> Seq<Seq<u8>>
    decreases b.len() - i,
{
    if i >= b.len() {
        if start < b.len() {
            seq![b.subrange(start, b.len() as int)]
        } else {
            Seq::empty()
        }
    } else if b[i] == 0x0A {
        seq![strip_cr(b.subrange(start, i))] + lines_acc(b, i + 1, i + 1)
    } else {
        lines_acc(b, i + 1, start)
    }
}

/// The lines of `b`, as `str::lines` splits them.
pub open spec fn lines_spec(b: Seq<u8>) -> Seq<Seq<u8>> {
    lines_acc(b, 0, 0)
}

/// Whether `pat` occurs in `b`.
pub open spec fn contains_spec(b: Seq<u8>, pat: Seq<u8>) -> bool {
    exists|i: int| 0 <= i && i + pat.len() <= b.len() && #[trigger] b.subrange(i, i + pat.len()) == pat
}

/// Whether `b` starts with `pat`.
pub open spec fn starts_with_spec(b: Seq<u8>, pat: Seq<u8>) -> bool {
    pat.len() <= b.len() && b.subrange(0, pat.len() as int) == pat
}

/// How many times the byte `c` occurs in `b`.
pub open spec fn count_byte(b: Seq<u8>, c: u8) -> nat
    decreases b.len(),
{
    if b.len() == 0 {
        0
    } else {
        count_byte(b.drop_last(), c) + (if b.last() == c { 1nat } else { 0nat })
    }
}

fn is_ws3_exec(x: u8, y: u8, z: u8) -> (r: bool)
    ensures
        r == is_ws3(x, y, z),
{
    (x == 0xE1 && y == 0x9A && z == 0x80)
    || (x == 0xE2 && y == 0x80 && ((0x80 <= z && z <= 0x8A) || z == 0xA8 || z == 0xA9 || z == 0xAF))
    || (x == 0xE2 && y == 0x81 && z == 0x9F)
    || (x == 0xE3 && y == 0x80 && z == 0x80)
}

/// Length of the whitespace character encoded at `i` (0 when none).
pub fn ws_len_at_pub(b: &[u8], i: usize) -> (r: usize)
    ensures
        r == ws_len_at(b@, i as int),
{
    ws_len_at_exec(b, i)
}

fn ws_len_at_exec(b: &[u8], i: usize) -> (r: usize)
    ensures
        r == ws_len_at(b@, i as int),
{
    if i >= b.len() {
        0
    } else if (0x09 <= b[i] && b[i] <= 0x0D) || b[i] == 0x20 {
        1
    } else if i + 1 < b.len() && b[i] == 0xC2 && (b[i + 1] == 0x85 || b[i + 1] == 0xA0) {
        2
    } else if b.len() - i > 2 && is_ws3_exec(b[i], b[i + 1], b[i + 2]) {
        3
    } else {
        0
    }
}

fn ws_len_before_exec(b: &[u8], j: usize) -> (r: usize)
    requires
        j <= b.len(),
    ensures
        r == ws_len_before(b@, j as int),
{
    if j < 1 {
        0
    } else if (0x09 <= b[j - 1] && b[j - 1] <= 0x0D) || b[j - 1] == 0x20 {
        1
    } else if j >= 2 && b[j - 2] == 0xC2 && (b[j - 1] == 0x85 || b[j - 1] == 0xA0) {
        2
    } else if j >= 3 && is_ws3_exec(b[j - 3], b[j - 2], b[j - 1]) {
        3
    } else {
        0
    }
}

/// The bounds `[s, e)` of `b[lo..hi]` without leading and trailing whitespace.
pub fn trim_bounds(b: &[u8], lo: usize, hi: usize) -> (r: (usize, usize))
    requires
        lo <= hi <= b.len(),
    ensures
        lo <= r.0 <= r.1 <= hi,
        b@.subrange(r.0 as int, r.1 as int) == trim_spec(b@.subrange(lo as int, hi as int)),
{
    let ghost t = b@.subrange(lo as int, hi as int);
    let sub = crate::bytes::slice_to_vec(b, lo, hi);
    let mut s: usize = 0;
    while s < sub.len() && ws_len_at_exec(sub.as_slice(), s) != 0
        invariant
            s <= sub@.len(),
            sub@ == t,
            trim_start_from(t, 0) == trim_start_from(t, s as int),
        decreases sub@.len() - s,
    {
        let l = ws_len_at_exec(sub.as_slice(), s);
        s = s + l;
    }
    let mut e: usize = sub.len();
    while e > s && ws_len_before_exec(sub.as_slice(), e) != 0 && e - ws_len_before_exec(sub.as_slice(), e) >= s
        invariant
            s <= e <= sub@.len(),
            sub@ == t,
            trim_start_from(t, 0) == s,
            trim_end_to(t, s as int, t.len() as int) == trim_end_to(t, s as int, e as int),
        decreases e,
    {
        let l = ws_len_before_exec(sub.as_slice(), e);
        e = e - l;
    }
    assert(b@.subrange((lo + s) as int, (lo + e) as int) =~= t.subrange(s as int, e as int));
    (lo + s, lo + e)
}

/// The bounds of the first `max` lines of `b[lo..hi]`.
pub fn line_bounds(b: &[u8], lo: usize, hi: usize, max: usize) -> (r: Vec<(usize, usize)>)
    requires
        lo <= hi <= b.len(),
    ensures
        r@.len() == if lines_spec(b@.subrange(lo as int, hi as int)).len() < max { lines_spec(b@.subrange(lo as int, hi as int)).len() } else { max as nat },
        forall|k: int| 0 <= k < r@.len() ==> lo <= (#[trigger] r@[k]).0 <= r@[k].1 <= hi
            && b@.subrange(r@[k].0 as int, r@[k].1 as int) == lines_spec(b@.subrange(lo as int, hi as int))[k],
{
    let ghost t = b@.subrange(lo as int, hi as int);
    let mut out: Vec<(usize, usize)> = Vec::new();
    let mut i: usize = lo;
    let mut start: usize = lo;
    let ghost mut done: Seq<Seq<u8>> = Seq::empty();
    while i < hi && out.len() < max
        invariant
            lo <= start <= i <= hi <= b.len(),
            t == b@.subrange(lo as int, hi as int),
            lines_spec(t) == done + lines_acc(t, i - lo, start - lo),
            out@.len() == done.len(),
            out@.len() <= max,
            forall|k: int| 0 <= k < out@.len() ==> lo <= (#[trigger] out@[k]).0 <= out@[k].1 <= hi
                && b@.subrange(out@[k].0 as int, out@[k].1 as int) == done[k],
        decreases hi - i,
    {
        if b[i] == 0x0A {
            let e = if i > start && b[i - 1] == 0x0D { i - 1 } else { i };
            proof {
                assert(t[i - lo] == b@[i as int]);
                let line = t.subrange(start - lo, i - lo);
                assert(b@.subrange(start as int, e as int) =~= strip_cr(line)) by {
                    if i > start && b@[i - 1] == 0x0D {
                        assert(line.last() == b@[i - 1]);
                    }
                }
                assert(done.push(strip_cr(line)) + lines_acc(t, i + 1 - lo, i + 1 - lo) =~= done + (seq![strip_cr(line)] + lines_acc(t, i + 1 - lo, i + 1 - lo)));
            }
            out.push((start, e));
            proof {
                done = done.push(strip_cr(t.subrange(start - lo, i - lo)));
            }
            start = i + 1;
        } else {
            proof {
                assert(t[i - lo] == b@[i as int]);
            }
        }
        i = i + 1;
    }
    if out.len() < max && i >= hi && start < hi {
        proof {
            assert(lines_acc(t, i - lo, start - lo) == seq![t.subrange(start - lo, t.len() as int)]);
            assert(b@.subrange(start as int, hi as int) =~= t.subrange(start - lo, t.len() as int));
            assert(done.push(t.subrange(start - lo, t.len() as int)) =~= done + seq![t.subrange(start - lo, t.len() as int)]);
        }
        out.push((start, hi));
        proof {
            done = done.push(t.subrange(start - lo, t.len() as int));
        }
    }
    proof {
        if out@.len() < max {
            assert(lines_spec(t) =~= done);
        } else {
            assert(lines_spec(t).subrange(0, done.len() as int) =~= done);
        }
    }
    out
}

/// Whether `pat` occurs in `b[lo..hi]`.
pub fn contains_in(b: &[u8], lo: usize, hi: usize, pat: &[u8]) -> (r: bool)
    requires
        lo <= hi <= b.len(),
    ensures
        r == contains_spec(b@.subrange(lo as int, hi as int), pat@),
{
    let ghost t = b@.subrange(lo as int, hi as int);
    if pat.len() > hi - lo {
        return false;
    }
    let mut i: usize = lo;
    while pat.len() <= hi - i
        invariant
            lo <= i <= hi,
            pat@.len() <= hi - lo,
            hi <= b.len(),
            t == b@.subrange(lo as int, hi as int),
            forall|k: int| 0 <= k < i - lo ==> #[trigger] t.subrange(k, k + pat@.len()) != pat@,
        decreases hi - i,
    {
        let mut m: usize = 0;
        while m < pat.len() && b[i + m] == pat[m]
            invariant
                m <= pat.len(),
                i + pat.len() <= hi <= b.len(),
                forall|q: int| 0 <= q < m ==> b@[i + q] == pat@[q],
            decreases pat.len() - m,
        {
            m = m + 1;
        }
        if m == pat.len() {
            assert(t.subrange(i - lo, i - lo + pat@.len()) =~= pat@);
            return true;
        }
        assert(t.subrange(i - lo, i - lo + pat@.len())[m as int] != pat@[m as int]);
        i = i + 1;
    }
    proof {
        assert forall|k: int| 0 <= k && k + pat@.len() <= t.len() implies #[trigger] t.subrange(k, k + pat@.len()) != pat@ by {
            assert(k < i - lo);
        }
    }
    false
}

/// How many times the byte `c` occurs in `b[lo..hi]`.
pub fn count_byte_in(b: &[u8], lo: usize, hi: usize, c: u8) -> (r: usize)
    requires
        lo <= hi <= b.len(),
    ensures
        r == count_byte(b@.subrange(lo as int, hi as int), c),
{
    let mut n: usize = 0;
    let mut i: usize = lo;
    while i < hi
        invariant
            lo <= i <= hi <= b.len(),
            n == count_byte(b@.subrange(lo as int, i as int), c),
            n <= i - lo,
        decreases hi - i,
    {
        proof {
            assert(b@.subrange(lo as int, i + 1).drop_last() =~= b@.subrange(lo as int, i as int));
        }
        if b[i] == c {
            n = n + 1;
        }
        i = i + 1;
    }
    n
}

} // verus!
