//! Constraint inference on columns: constants, ranges, enumerations,
//! monotonicity, strides, periods and runs of integer columns; constants,
//! enumerations and length bounds of string columns; and columns that are a
//! linear function of another (`y = a·x + b`), which constraint projection
//! can drop.

use vstd::prelude::*;
use vstd::utf8::encode_utf8;
use crate::bytes::{le16, push_all, push_u16, slice_to_vec};
use crate::decimal::{decimal_of, decimal_string};
use crate::error::CpacError;
use crate::strset::{insert_sorted, is_sorted_set_of, lemma_sorted_set_len, sorted_strict, strings_view};

verus! {

/// Direction of monotonicity.
#[derive(Clone, Copy, Debug, PartialEq, Eq)]
pub enum MonotonicDir {
    Increasing,
    Decreasing,
}

/// A constraint discovered on a column.
#[derive(Clone, Debug, PartialEq)]
pub enum Constraint {
    /// Column values fall within `[min, max]`.
    Range { min: i64, max: i64 },
    /// Column has a fixed set of values (their text, in increasing order).
    Enumeration { values: Vec<String> },
    /// Column is constant.
    Constant { value: String },
    /// Column values are monotonic.
    Monotonic { direction: MonotonicDir },
    /// Column `to` is functionally dependent on column `from`.
    FunctionalDependency { from: String, to: String },
    /// Column has a fixed stride (delta between consecutive values).
    Stride { step: i64 },
    /// Column values are sorted.
    Sorted { direction: MonotonicDir },
    /// String values have bounded length in bytes.
    LengthBounded { min_len: usize, max_len: usize },
    /// Values repeat with the given period.
    Periodic { period: usize },
    /// Values come in long runs of identical values.
    RunLength { avg_run: usize },
    /// Column contains null or sentinel values.
    Nullable { null_count: usize, sentinel: String },
    /// A float column benefits from XOR-delta encoding.
    XorDeltaBenefit { avg_leading_zeros: u32 },
    /// A float column is clustered; the mean and standard deviation are held
    /// as the bits of their IEEE 754 double values.
    FloatClustered { mean_bits: u64, std_dev_bits: u64 },
    /// Column `target` is `multiplier · source + offset`.
    Algebraic { target: String, source: String, multiplier: i64, offset: i64 },
}

/// Classification of a variable (column) for constraint projection.
#[derive(Clone, Copy, Debug, PartialEq, Eq)]
pub enum VarClass {
    /// The column holds one constant value in every row.
    Fixed { value: i64 },
    /// The column is a linear function of another: `y = multiplier · source + offset`.
    DerivedLinear { source_col: usize, multiplier: i64, offset: i64 },
    /// The column is independent and must be stored.
    Free,
}

/// The first index from `k` at which `x` differs from its first value.
pub open spec fn first_diff_from(x: Seq<i64>, k: int) -> Option<int>
    decreases x.len() - k,
{
    if k >= x.len() || k < 0 {
        None
    } else if x[k] != x[0] {
        Some(k)
    } else {
        first_diff_from(x, k + 1)
    }
}

/// `a` is the ratio `dy / dx`.
pub open spec fn is_ratio(a: int, dx: int, dy: int) -> bool {
    a * dx == dy
}

/// The `(a, b)` with `y[i] = a·x[i] + b` for every row that the first two
/// distinct values of `x` determine, when both and every product `a·x[i]` fit
/// 64 bits; `None` otherwise.
pub open spec fn linear_fit(x: Seq<i64>, y: Seq<i64>) -> Option<(i64, i64)> {
    if x.len() < 2 || x.len() != y.len() {
        None
    } else {
        match first_diff_from(x, 1) {
            None => None,
            Some(k) => {
                let dx = x[k] - x[0];
                let dy = y[k] - y[0];
                if !(exists|a: int| #[trigger] is_ratio(a, dx, dy)) {
                    None
                } else {
                    let a = choose|a: int| #[trigger] is_ratio(a, dx, dy);
                    let b = y[0] - a * x[0];
                    if !(i64::MIN <= a <= i64::MAX && i64::MIN <= b <= i64::MAX) {
                        None
                    } else if forall|i: int| 0 <= i < x.len() ==> i64::MIN <= a * #[trigger] x[i] <= i64::MAX && a * x[i] + b == y[i] {
                        Some((a as i64, b as i64))
                    } else {
                        None
                    }
                }
            },
        }
    }
}

proof fn lemma_ratio_unique(a1: int, a2: int, dx: int, dy: int)
    requires
        dx != 0,
        a1 * dx == dy,
        a2 * dx == dy,
    ensures
        a1 == a2,
{
    assert((a1 - a2) * dx == 0) by (nonlinear_arith)
        requires
            a1 * dx == dy,
            a2 * dx == dy,
    ;
    assert(a1 - a2 == 0) by (nonlinear_arith)
        requires
            (a1 - a2) * dx == 0,
            dx != 0,
    ;
}

/// Finds `(a, b)` with `y = a·x + b` row by row, from the first two distinct
/// values of `x`.
fn detect_linear_relation(x: &[i64], y: &[i64]) -> (r: Option<(i64, i64)>)
    ensures
        r == linear_fit(x@, y@),
{
    if x.len() < 2 || x.len() != y.len() {
        return None;
    }
    let mut k: usize = 1;
    while k < x.len() && x[k] == x[0]
        invariant
            1 <= k <= x.len(),
            first_diff_from(x@, 1) == first_diff_from(x@, k as int),
        decreases x.len() - k,
    {
        k = k + 1;
    }
    if k == x.len() {
        return None;
    }
    assert(first_diff_from(x@, 1) == Some(k as int));
    let dx: i128 = x[k] as i128 - x[0] as i128;
    let dy: i128 = y[k] as i128 - y[0] as i128;
    let adx: u128 = if dx < 0 { (0 - dx) as u128 } else { dx as u128 };
    let ady: u128 = if dy < 0 { (0 - dy) as u128 } else { dy as u128 };
    assert(adx > 0);
    if ady % adx != 0 {
        proof {
            if exists|a: int| #[trigger] is_ratio(a, dx as int, dy as int) {
                let a = choose|a: int| #[trigger] is_ratio(a, dx as int, dy as int);
                let aa: int = if a < 0 { -a } else { a };
                assert(aa * (adx as int) == ady as int) by (nonlinear_arith)
                    requires
                        a * dx == dy,
                        aa == (if a < 0 { -a } else { a }),
                        adx == (if dx < 0 { -dx } else { dx as int }),
                        ady == (if dy < 0 { -dy } else { dy as int }),
                ;
                assert((aa * (adx as int)) % (adx as int) == 0) by (nonlinear_arith)
                    requires
                        adx > 0,
                        aa >= 0,
                ;
            }
        }
        return None;
    }
    let q: u128 = ady / adx;
    assert(q * adx == ady) by (nonlinear_arith)
        requires
            ady % adx == 0,
            adx > 0,
            q == ady / adx,
    ;
    assert(q <= ady) by (nonlinear_arith)
        requires
            q * adx == ady,
            adx > 0,
    ;
    let neg = (dx < 0) != (dy < 0);
    let a: i128 = if neg { 0 - (q as i128) } else { q as i128 };
    assert(a * dx == dy) by (nonlinear_arith)
        requires
            q * adx == ady,
            adx == (if dx < 0 { -dx } else { dx as int }),
            ady == (if dy < 0 { -dy } else { dy as int }),
            a == (if ((dx < 0) != (dy < 0)) { -q } else { q as int }),
            dx != 0,
            dy == 0 ==> q == 0,
    ;
    proof {
        let kk = k as int;
        assert(x@[kk] - x@[0] == dx as int);
        assert(y@[kk] - y@[0] == dy as int);
        assert(is_ratio(a as int, dx as int, dy as int));
        let c = choose|c: int| #[trigger] is_ratio(c, dx as int, dy as int);
        lemma_ratio_unique(c, a as int, dx as int, dy as int);
        assert(c == a);
    }
    if a < i64::MIN as i128 || a > i64::MAX as i128 {
        return None;
    }
    let x0 = x[0];
    assert(-0x4000_0000_0000_0000_0000_0000_0000_0000 <= (a as int) * (x0 as int) <= 0x4000_0000_0000_0000_0000_0000_0000_0000) by (nonlinear_arith)
        requires
            i64::MIN <= a <= i64::MAX,
            i64::MIN <= x0 <= i64::MAX,
    ;
    let ax0: i128 = a * (x0 as i128);
    let b: i128 = (y[0] as i128) - ax0;
    if b < i64::MIN as i128 || b > i64::MAX as i128 {
        return None;
    }
    let a64 = a as i64;
    let b64 = b as i64;
    assert(linear_fit(x@, y@) == (if (forall|j: int| 0 <= j < x@.len() ==> i64::MIN <= a * #[trigger] x@[j] <= i64::MAX && a * x@[j] + b == y@[j]) {
        Some((a64, b64))
    } else {
        None
    }));
    let mut i: usize = 0;
    while i < x.len()
        invariant
            i <= x.len(),
            x.len() == y.len(),
            linear_fit(x@, y@) == (if (forall|j: int| 0 <= j < x@.len() ==> i64::MIN <= a * #[trigger] x@[j] <= i64::MAX && a * x@[j] + b == y@[j]) {
                Some((a64, b64))
            } else {
                None
            }),
            a64 == a,
            b64 == b,
            forall|j: int| 0 <= j < i ==> i64::MIN <= a * #[trigger] x@[j] <= i64::MAX && a * x@[j] + b == y@[j],
        decreases x.len() - i,
    {
        match a64.checked_mul(x[i]) {
            None => {
                assert(!(i64::MIN <= a * x@[i as int] <= i64::MAX));
                return None;
            },
            Some(ax) => match ax.checked_add(b64) {
                None => {
                    assert(a * x@[i as int] + b != y@[i as int]);
                    return None;
                },
                Some(v) => {
                    if v != y[i] {
                        return None;
                    }
                },
            },
        }
        i = i + 1;
    }
    Some((a64, b64))
}

/// The class pass 1 gives a column: `Free` when empty, `Fixed` when constant.
pub open spec fn initial_class(v: Seq<i64>) -> Option<VarClass> {
    if v.len() == 0 {
        Some(VarClass::Free)
    } else if forall|i: int| 0 <= i < v.len() ==> #[trigger] v[i] == v[0] {
        Some(VarClass::Fixed { value: v[0] })
    } else {
        None
    }
}

/// The first column from `i` that column `j` can be derived from, given the
/// classes so far: unclassified, not `j`, of the same length, and with a
/// linear fit.
pub open spec fn find_source(cols: Seq<Seq<i64>>, cls: Seq<Option<VarClass>>, j: int, i: int) -> Option<(int, (i64, i64))>
    decreases cols.len() - i,
{
    if i >= cols.len() || i < 0 {
        None
    } else if i != j && cls[i] is None && cols[i].len() == cols[j].len() && linear_fit(cols[i], cols[j]) is Some {
        Some((i, linear_fit(cols[i], cols[j]).unwrap()))
    } else {
        find_source(cols, cls, j, i + 1)
    }
}

/// The class of column `j` after its pass-2 step.
pub open spec fn pass2_step(cols: Seq<Seq<i64>>, cls: Seq<Option<VarClass>>, j: int) -> Seq<Option<VarClass>> {
    if cls[j] is None && cols[j].len() >= 2 {
        match find_source(cols, cls, j, 0) {
            Some((i, (a, b))) => cls.update(j, Some(VarClass::DerivedLinear { source_col: i as usize, multiplier: a, offset: b })),
            None => cls,
        }
    } else {
        cls
    }
}

/// The classes after pass 2 has handled columns `j..`.
pub open spec fn pass2_from(cols: Seq<Seq<i64>>, cls: Seq<Option<VarClass>>, j: int) -> Seq<Option<VarClass>>
    decreases cols.len() - j,
{
    if j >= cols.len() || j < 0 {
        cls
    } else {
        pass2_from(cols, pass2_step(cols, cls, j), j + 1)
    }
}

/// The classes of all columns: constant columns are `Fixed`, then each other
/// column, in order, is `DerivedLinear` from the first column still
/// unclassified that it is a linear function of, and the rest are `Free`.
pub open spec fn classify_spec(cols: Seq<Seq<i64>>) -> Seq<VarClass> {
    let fin = pass2_from(cols, Seq::new(cols.len(), |i: int| initial_class(cols[i])), 0);
    Seq::new(cols.len(), |i: int| match fin[i] {
        Some(c) => c,
        None => VarClass::Free,
    })
}

/// The values of each column.
pub open spec fn column_values(cols: Seq<(String, Vec<i64>)>) -> Seq<Seq<i64>> {
    Seq::new(cols.len(), |i: int| cols[i].1@)
}

fn initial_class_exec(v: &Vec<i64>) -> (r: Option<VarClass>)
    ensures
        r == initial_class(v@),
{
    if v.len() == 0 {
        return Some(VarClass::Free);
    }
    let first = v[0];
    let mut i: usize = 0;
    while i < v.len()
        invariant
            i <= v.len(),
            v@.len() > 0,
            first == v@[0],
            forall|k: int| 0 <= k < i ==> #[trigger] v@[k] == v@[0],
        decreases v.len() - i,
    {
        if v[i] != first {
            return None;
        }
        i = i + 1;
    }
    Some(VarClass::Fixed { value: first })
}

/// Classifies integer columns as `Fixed`, `DerivedLinear` or `Free`.
pub fn classify_variables(columns: &[(String, Vec<i64>)]) -> (r: Vec<(String, VarClass)>)
    ensures
        r@.len() == columns@.len(),
        forall|i: int| 0 <= i < r@.len() ==> (#[trigger] r@[i]).0@ == columns@[i].0@ && r@[i].1 == classify_spec(column_values(columns@))[i],
{
    let n = columns.len();
    let ghost cv = column_values(columns@);
    let mut classes: Vec<Option<VarClass>> = Vec::new();
    let mut i: usize = 0;
    while i < n
        invariant
            i <= n,
            n == columns@.len(),
            cv == column_values(columns@),
            classes@ == Seq::new(i as nat, |k: int| initial_class(cv[k])),
        decreases n - i,
    {
        let c = initial_class_exec(&columns[i].1);
        classes.push(c);
        i = i + 1;
        assert(classes@ =~= Seq::new(i as nat, |k: int| initial_class(cv[k])));
    }
    let ghost init = classes@;
    let mut j: usize = 0;
    while j < n
        invariant
            j <= n,
            n == columns@.len(),
            cv == column_values(columns@),
            classes@.len() == n,
            pass2_from(cv, init, 0) == pass2_from(cv, classes@, j as int),
        decreases n - j,
    {
        let ghost before = classes@;
        if classes[j].is_none() && columns[j].1.len() >= 2 {
            let mut found: Option<(usize, i64, i64)> = None;
            let mut i2: usize = 0;
            while i2 < n && found.is_none()
                invariant
                    i2 <= n,
                    j < n,
                    n == columns@.len(),
                    cv == column_values(columns@),
                    classes@ == before,
                    before.len() == n,
                    found is None ==> find_source(cv, before, j as int, 0) == find_source(cv, before, j as int, i2 as int),
                    found matches Some((fi, fa, fb)) ==> find_source(cv, before, j as int, 0) == Some((fi as int, (fa, fb))),
                decreases n - i2,
            {
                if i2 != j && classes[i2].is_none() && columns[i2].1.len() == columns[j].1.len() {
                    match detect_linear_relation(columns[i2].1.as_slice(), columns[j].1.as_slice()) {
                        Some((a, b)) => {
                            found = Some((i2, a, b));
                        },
                        None => {},
                    }
                }
                i2 = i2 + 1;
            }
            match found {
                Some((fi, fa, fb)) => {
                    classes.set(j, Some(VarClass::DerivedLinear { source_col: fi, multiplier: fa, offset: fb }));
                },
                None => {},
            }
            assert(classes@ == pass2_step(cv, before, j as int));
        }
        j = j + 1;
    }
    assert(pass2_from(cv, classes@, n as int) == classes@);
    let ghost fin = classes@;
    let mut out: Vec<(String, VarClass)> = Vec::new();
    let mut k: usize = 0;
    while k < n
        invariant
            k <= n,
            n == columns@.len(),
            classes@ == fin,
            fin.len() == n,
            fin == pass2_from(cv, Seq::new(n as nat, |m: int| initial_class(cv[m])), 0),
            cv == column_values(columns@),
            out@.len() == k,
            forall|m: int| 0 <= m < k ==> (#[trigger] out@[m]).0@ == columns@[m].0@ && out@[m].1 == classify_spec(cv)[m],
        decreases n - k,
    {
        let c = match classes[k] {
            Some(c) => c,
            None => VarClass::Free,
        };
        out.push((columns[k].0.clone(), c));
        k = k + 1;
    }
    out
}


/// Every value equals the first.
pub open spec fn all_equal(s: Seq<i64>) -> bool {
    forall|i: int| 0 <= i < s.len() ==> #[trigger] s[i] == s[0]
}

/// The least value of a non-empty sequence.
pub open spec fn min_of(s: Seq<i64>) -> i64
    decreases s.len(),
{
    if s.len() <= 1 {
        s[0]
    } else if s.last() < min_of(s.drop_last()) {
        s.last()
    } else {
        min_of(s.drop_last())
    }
}

/// The greatest value of a non-empty sequence.
pub open spec fn max_of(s: Seq<i64>) -> i64
    decreases s.len(),
{
    if s.len() <= 1 {
        s[0]
    } else if s.last() > max_of(s.drop_last()) {
        s.last()
    } else {
        max_of(s.drop_last())
    }
}

/// Each value is at least the one before.
pub open spec fn non_decreasing(s: Seq<i64>) -> bool {
    forall|i: int, j: int| 0 <= i && j == i + 1 && j < s.len() ==> #[trigger] s[i] <= #[trigger] s[j]
}

/// Each value is at most the one before.
pub open spec fn non_increasing(s: Seq<i64>) -> bool {
    forall|i: int, j: int| 0 <= i && j == i + 1 && j < s.len() ==> #[trigger] s[i] >= #[trigger] s[j]
}

/// The direction the values are sorted in, increasing first.
pub open spec fn monotonic_dir(s: Seq<i64>) -> Option<MonotonicDir> {
    if non_decreasing(s) {
        Some(MonotonicDir::Increasing)
    } else if non_increasing(s) {
        Some(MonotonicDir::Decreasing)
    } else {
        None
    }
}

/// The decimal texts of the values.
pub open spec fn decimals(s: Seq<i64>) -> Seq<Seq<char>> {
    Seq::new(s.len(), |i: int| decimal_of(s[i] as int))
}

/// An integer column is an enumeration when it has at most 32 distinct
/// values and fewer than half as many as values.
pub open spec fn int_enum_applies(s: Seq<i64>) -> bool {
    s.to_set().len() <= 32 && s.to_set().len() < s.len() / 2
}

/// `c` is the enumeration of each of the `texts` once, in increasing order.
pub open spec fn enumerates(c: Constraint, texts: Seq<Seq<char>>) -> bool {
    c matches Constraint::Enumeration { values } && is_sorted_set_of(strings_view(values@), texts)
}

/// `c` is the constant with the text `text`.
pub open spec fn constant_text(c: Constraint, text: Seq<char>) -> bool {
    c matches Constraint::Constant { value } && value@ == text
}

fn all_equal_exec(values: &[i64]) -> (r: bool)
    requires
        values@.len() > 0,
    ensures
        r == all_equal(values@),
{
    let first = values[0];
    let mut i: usize = 0;
    while i < values.len()
        invariant
            i <= values@.len(),
            values@.len() > 0,
            first == values@[0],
            forall|k: int| 0 <= k < i ==> #[trigger] values@[k] == first,
        decreases values.len() - i,
    {
        if values[i] != first {
            return false;
        }
        i = i + 1;
    }
    true
}

fn min_max(values: &[i64]) -> (r: (i64, i64))
    requires
        values@.len() > 0,
    ensures
        r == (min_of(values@), max_of(values@)),
{
    let mut mn = values[0];
    let mut mx = values[0];
    let mut i: usize = 1;
    assert(values@.subrange(0, 1).len() == 1);
    while i < values.len()
        invariant
            1 <= i <= values@.len(),
            mn == min_of(values@.subrange(0, i as int)),
            mx == max_of(values@.subrange(0, i as int)),
        decreases values.len() - i,
    {
        let v = values[i];
        assert(values@.subrange(0, i + 1).drop_last() =~= values@.subrange(0, i as int));
        if v < mn {
            mn = v;
        }
        if v > mx {
            mx = v;
        }
        i = i + 1;
    }
    assert(values@.subrange(0, i as int) =~= values@);
    (mn, mx)
}

fn monotonic_exec(values: &[i64]) -> (r: Option<MonotonicDir>)
    ensures
        r == monotonic_dir(values@),
{
    let mut inc = true;
    let mut dec = true;
    let mut i: usize = 1;
    while i < values.len()
        invariant
            1 <= i,
            i <= values@.len() || values@.len() == 0,
            inc == non_decreasing(values@.subrange(0, if i <= values@.len() { i as int } else { 0 })),
            dec == non_increasing(values@.subrange(0, if i <= values@.len() { i as int } else { 0 })),
        decreases values.len() - i,
    {
        let ghost pre = values@.subrange(0, i as int);
        let ghost nxt = values@.subrange(0, i + 1);
        assert(nxt[i - 1] == values@[i - 1] && nxt[i as int] == values@[i as int]);
        assert(non_decreasing(nxt) == (non_decreasing(pre) && values@[i - 1] <= values@[i as int])) by {
            if non_decreasing(pre) && values@[i - 1] <= values@[i as int] {
                assert forall|a: int, b: int| 0 <= a && b == a + 1 && b < nxt.len() implies #[trigger] nxt[a] <= #[trigger] nxt[b] by {
                    if b < i {
                        assert(nxt[a] == pre[a] && nxt[b] == pre[b]);
                    }
                }
            }
            if non_decreasing(nxt) {
                assert forall|a: int, b: int| 0 <= a && b == a + 1 && b < pre.len() implies #[trigger] pre[a] <= #[trigger] pre[b] by {
                    assert(nxt[a] == pre[a] && nxt[b] == pre[b]);
                }
            }
        }
        assert(non_increasing(nxt) == (non_increasing(pre) && values@[i - 1] >= values@[i as int])) by {
            if non_increasing(pre) && values@[i - 1] >= values@[i as int] {
                assert forall|a: int, b: int| 0 <= a && b == a + 1 && b < nxt.len() implies #[trigger] nxt[a] >= #[trigger] nxt[b] by {
                    if b < i {
                        assert(nxt[a] == pre[a] && nxt[b] == pre[b]);
                    }
                }
            }
            if non_increasing(nxt) {
                assert forall|a: int, b: int| 0 <= a && b == a + 1 && b < pre.len() implies #[trigger] pre[a] >= #[trigger] pre[b] by {
                    assert(nxt[a] == pre[a] && nxt[b] == pre[b]);
                }
            }
        }
        inc = inc && values[i - 1] <= values[i];
        dec = dec && values[i - 1] >= values[i];
        i = i + 1;
    }
    if values.len() > 0 {
        assert(values@.subrange(0, values@.len() as int) =~= values@);
    }
    if inc {
        Some(MonotonicDir::Increasing)
    } else if dec {
        Some(MonotonicDir::Decreasing)
    } else {
        None
    }
}

fn distinct_count(values: &[i64]) -> (r: usize)
    ensures
        r == values@.to_set().len(),
{
    let mut uniq: Vec<i64> = Vec::new();
    let mut i: usize = 0;
    while i < values.len()
        invariant
            i <= values@.len(),
            uniq@.no_duplicates(),
            uniq@.len() <= i,
            forall|v: i64| #[trigger] uniq@.contains(v) <==> values@.subrange(0, i as int).contains(v),
        decreases values.len() - i,
    {
        let v = values[i];
        let mut found = false;
        let mut k: usize = 0;
        while k < uniq.len()
            invariant
                k <= uniq@.len(),
                found <==> exists|j: int| 0 <= j < k && uniq@[j] == v,
            decreases uniq.len() - k,
        {
            if uniq[k] == v {
                found = true;
            }
            k = k + 1;
        }
        let ghost pre = values@.subrange(0, i as int);
        let ghost nxt = values@.subrange(0, i + 1);
        assert(nxt =~= pre.push(v));
        let ghost old_uniq = uniq@;
        if !found {
            uniq.push(v);
        }
        assert forall|w: i64| #[trigger] uniq@.contains(w) <==> nxt.contains(w) by {
            if w == v {
                assert(nxt[i as int] == v);
                if found {
                    let j = choose|j: int| 0 <= j < old_uniq.len() && old_uniq[j] == v;
                    assert(uniq@[j] == w);
                } else {
                    assert(uniq@[uniq@.len() - 1] == w);
                }
            } else {
                if uniq@.contains(w) {
                    let j = choose|j: int| 0 <= j < uniq@.len() && uniq@[j] == w;
                    if !found && j == uniq@.len() - 1 {
                    } else {
                        assert(old_uniq[j] == w);
                        assert(old_uniq.contains(w));
                        assert(pre.contains(w));
                        let q = choose|q: int| 0 <= q < pre.len() && pre[q] == w;
                        assert(nxt[q] == w);
                    }
                }
                if nxt.contains(w) {
                    let q = choose|q: int| 0 <= q < nxt.len() && nxt[q] == w;
                    assert(q < i);
                    assert(pre[q] == w);
                    assert(old_uniq.contains(w));
                    let j = choose|j: int| 0 <= j < old_uniq.len() && old_uniq[j] == w;
                    assert(uniq@[j] == w);
                }
            }
        }
        i = i + 1;
    }
    assert(values@.subrange(0, i as int) =~= values@);
    proof {
        uniq@.unique_seq_to_set();
        assert(uniq@.to_set() =~= values@.to_set());
    }
    uniq.len()
}

fn sorted_decimals(values: &[i64]) -> (r: Vec<String>)
    ensures
        is_sorted_set_of(strings_view(r@), decimals(values@)),
{
    let mut out: Vec<String> = Vec::new();
    let mut i: usize = 0;
    assert(strings_view(out@) =~= Seq::<Seq<char>>::empty());
    while i < values.len()
        invariant
            i <= values@.len(),
            is_sorted_set_of(strings_view(out@), decimals(values@).subrange(0, i as int)),
        decreases values.len() - i,
    {
        let t = decimal_string(values[i]);
        let ghost before = strings_view(out@);
        insert_sorted(&mut out, t);
        proof {
            let pre = decimals(values@).subrange(0, i as int);
            let nxt = decimals(values@).subrange(0, i + 1);
            assert(nxt =~= pre.push(decimal_of(values@[i as int] as int)));
            assert forall|x: Seq<char>| #[trigger] strings_view(out@).contains(x) <==> nxt.contains(x) by {
                if pre.contains(x) {
                    let q = choose|q: int| 0 <= q < pre.len() && pre[q] == x;
                    assert(nxt[q] == x);
                }
                if nxt.contains(x) {
                    let q = choose|q: int| 0 <= q < nxt.len() && nxt[q] == x;
                    if q < i {
                        assert(pre[q] == x);
                    }
                }
                if x == decimal_of(values@[i as int] as int) {
                    assert(nxt[i as int] == x);
                }
            }
        }
        i = i + 1;
    }
    assert(decimals(values@).subrange(0, i as int) =~= decimals(values@));
    out
}

/// Infers the constraints of an integer column: a constant column gives its
/// constant alone; otherwise its range, then an enumeration of its distinct
/// values when they are few, then its direction when it is sorted.
pub fn infer_int_constraints(_name: &str, values: &[i64]) -> (r: Vec<Constraint>)
    ensures
        values@.len() == 0 ==> r@.len() == 0,
        values@.len() > 0 && all_equal(values@) ==> r@.len() == 1 && constant_text(r@[0], decimal_of(values@[0] as int)),
        values@.len() > 0 && !all_equal(values@) ==> {
            let e: int = if int_enum_applies(values@) { 1 } else { 0 };
            &&& r@.len() == 1 + e + (if monotonic_dir(values@) is Some { 1int } else { 0 })
            &&& r@[0] == (Constraint::Range { min: min_of(values@), max: max_of(values@) })
            &&& int_enum_applies(values@) ==> enumerates(r@[1], decimals(values@))
            &&& monotonic_dir(values@) matches Some(d) ==> r@[1 + e] == (Constraint::Monotonic { direction: d })
        },
{
    let mut constraints: Vec<Constraint> = Vec::new();
    if values.len() == 0 {
        return constraints;
    }
    if all_equal_exec(values) {
        constraints.push(Constraint::Constant { value: decimal_string(values[0]) });
        return constraints;
    }
    let (mn, mx) = min_max(values);
    constraints.push(Constraint::Range { min: mn, max: mx });
    let u = distinct_count(values);
    if u <= 32 && u < values.len() / 2 {
        let vals = sorted_decimals(values);
        constraints.push(Constraint::Enumeration { values: vals });
    }
    match monotonic_exec(values) {
        Some(d) => constraints.push(Constraint::Monotonic { direction: d }),
        None => {},
    }
    constraints
}

/// The length in bytes of a string's UTF-8 encoding, as `str::len` gives it.
pub open spec fn byte_len(s: String) -> usize {
    encode_utf8(s@).len() as usize
}

/// Every string has the text of the first.
pub open spec fn all_same_text(s: Seq<String>) -> bool {
    forall|i: int| 0 <= i < s.len() ==> (#[trigger] s[i])@ == s[0]@
}

/// The least byte length of a non-empty sequence of strings.
pub open spec fn min_len_of(s: Seq<String>) -> usize
    decreases s.len(),
{
    if s.len() <= 1 {
        byte_len(s[0])
    } else if byte_len(s.last()) < min_len_of(s.drop_last()) {
        byte_len(s.last())
    } else {
        min_len_of(s.drop_last())
    }
}

/// The greatest byte length of a non-empty sequence of strings.
pub open spec fn max_len_of(s: Seq<String>) -> usize
    decreases s.len(),
{
    if s.len() <= 1 {
        byte_len(s[0])
    } else if byte_len(s.last()) > max_len_of(s.drop_last()) {
        byte_len(s.last())
    } else {
        max_len_of(s.drop_last())
    }
}

/// A string column is an enumeration when it has at most 64 distinct values
/// and fewer than half as many as values.
pub open spec fn str_enum_applies(s: Seq<String>) -> bool {
    strings_view(s).to_set().len() <= 64 && strings_view(s).to_set().len() < s.len() / 2
}

/// A string column's lengths are recorded unless every string is longer
/// than 64 bytes and all have the same length.
pub open spec fn length_bound_applies(s: Seq<String>) -> bool {
    min_len_of(s) != max_len_of(s) || max_len_of(s) <= 64
}

fn all_same_text_exec(values: &[String]) -> (r: bool)
    requires
        values@.len() > 0,
    ensures
        r == all_same_text(values@),
{
    let mut i: usize = 0;
    while i < values.len()
        invariant
            i <= values@.len(),
            values@.len() > 0,
            forall|k: int| 0 <= k < i ==> (#[trigger] values@[k])@ == values@[0]@,
        decreases values.len() - i,
    {
        if !(values[i] == values[0]) {
            return false;
        }
        i = i + 1;
    }
    true
}

fn length_range(values: &[String]) -> (r: (usize, usize))
    requires
        values@.len() > 0,
    ensures
        r.0 == min_len_of(values@),
        r.1 == max_len_of(values@),
{
    let first = values[0].as_str().len();
    let mut mn = first;
    let mut mx = first;
    let mut i: usize = 1;
    assert(values@.subrange(0, 1).len() == 1);
    assert(values@.subrange(0, 1)[0] == values@[0]);
    while i < values.len()
        invariant
            1 <= i <= values@.len(),
            mn == min_len_of(values@.subrange(0, i as int)),
            mx == max_len_of(values@.subrange(0, i as int)),
        decreases values.len() - i,
    {
        let l = values[i].as_str().len();
        assert(values@.subrange(0, i + 1).drop_last() =~= values@.subrange(0, i as int));
        assert(values@.subrange(0, i + 1).last() == values@[i as int]);
        if l < mn {
            mn = l;
        }
        if l > mx {
            mx = l;
        }
        i = i + 1;
    }
    assert(values@.subrange(0, i as int) =~= values@);
    (mn, mx)
}

fn sorted_strings(values: &[String]) -> (r: Vec<String>)
    ensures
        is_sorted_set_of(strings_view(r@), strings_view(values@)),
{
    let mut out: Vec<String> = Vec::new();
    let mut i: usize = 0;
    assert(strings_view(out@) =~= Seq::<Seq<char>>::empty());
    while i < values.len()
        invariant
            i <= values@.len(),
            is_sorted_set_of(strings_view(out@), strings_view(values@).subrange(0, i as int)),
        decreases values.len() - i,
    {
        let t = values[i].clone();
        insert_sorted(&mut out, t);
        proof {
            let pre = strings_view(values@).subrange(0, i as int);
            let nxt = strings_view(values@).subrange(0, i + 1);
            assert(nxt =~= pre.push(values@[i as int]@));
            assert forall|x: Seq<char>| #[trigger] strings_view(out@).contains(x) <==> nxt.contains(x) by {
                if pre.contains(x) {
                    let q = choose|q: int| 0 <= q < pre.len() && pre[q] == x;
                    assert(nxt[q] == x);
                }
                if nxt.contains(x) {
                    let q = choose|q: int| 0 <= q < nxt.len() && nxt[q] == x;
                    if q < i {
                        assert(pre[q] == x);
                    }
                }
                if x == values@[i as int]@ {
                    assert(nxt[i as int] == x);
                }
            }
        }
        i = i + 1;
    }
    assert(strings_view(values@).subrange(0, i as int) =~= strings_view(values@));
    out
}

/// Infers the constraints of a string column: a constant column gives its
/// constant alone; otherwise an enumeration of its distinct values when they
/// are few, then its byte-length bounds.
pub fn infer_string_constraints(_name: &str, values: &[String]) -> (r: Vec<Constraint>)
    ensures
        values@.len() == 0 ==> r@.len() == 0,
        values@.len() > 0 && all_same_text(values@) ==> r@.len() == 1 && constant_text(r@[0], values@[0]@),
        values@.len() > 0 && !all_same_text(values@) ==> {
            let e: int = if str_enum_applies(values@) { 1 } else { 0 };
            &&& r@.len() == e + (if length_bound_applies(values@) { 1int } else { 0 })
            &&& str_enum_applies(values@) ==> enumerates(r@[0], strings_view(values@))
            &&& length_bound_applies(values@) ==> r@[e] == (Constraint::LengthBounded {
                min_len: min_len_of(values@),
                max_len: max_len_of(values@),
            })
        },
{
    let mut constraints: Vec<Constraint> = Vec::new();
    if values.len() == 0 {
        return constraints;
    }
    if all_same_text_exec(values) {
        constraints.push(Constraint::Constant { value: values[0].clone() });
        return constraints;
    }
    let uniq = sorted_strings(values);
    proof {
        lemma_sorted_set_len(strings_view(uniq@), strings_view(values@));
    }
    if uniq.len() <= 64 && uniq.len() < values.len() / 2 {
        constraints.push(Constraint::Enumeration { values: uniq });
    }
    let (min_len, max_len) = length_range(values);
    if min_len != max_len || max_len <= 64 {
        constraints.push(Constraint::LengthBounded { min_len, max_len });
    }
    constraints
}


/// The difference between the values at `i + 1` and `i`.
pub open spec fn step_at(s: Seq<i64>, i: int) -> int {
    s[i + 1] - s[i]
}

/// The first position from `i` whose step differs from the first step.
pub open spec fn first_stride_break(s: Seq<i64>, i: int) -> Option<int>
    decreases s.len() - i,
{
    if i < 0 || i + 1 >= s.len() {
        None
    } else if step_at(s, i) != step_at(s, 0) {
        Some(i)
    } else {
        first_stride_break(s, i + 1)
    }
}

/// Whether an integer fits 64 signed bits.
pub open spec fn fits_i64(v: int) -> bool {
    i64::MIN <= v <= i64::MAX
}

/// The columns on which the stride scan overflows 64-bit subtraction: the
/// first step, or the first step that differs from it, does not fit.
pub open spec fn stride_overflows(s: Seq<i64>) -> bool {
    s.len() >= 2 && (!fits_i64(step_at(s, 0)) || (first_stride_break(s, 0) matches Some(k) && !fits_i64(
        step_at(s, k),
    )))
}

/// `s` repeats with period `p`, over at least three periods.
pub open spec fn has_period(s: Seq<i64>, p: int) -> bool {
    s.len() >= 3 * p && forall|i: int| p <= i < s.len() ==> #[trigger] s[i] == s[i % p]
}

/// The first period from `p` up to 16 that `s` repeats with.
pub open spec fn first_period_from(s: Seq<i64>, p: int) -> Option<int>
    decreases 17 - p,
{
    if p < 2 || p > 16 {
        None
    } else if has_period(s, p) {
        Some(p)
    } else {
        first_period_from(s, p + 1)
    }
}

/// The number of positions where a value differs from the one before.
pub open spec fn changes(s: Seq<i64>) -> nat
    decreases s.len(),
{
    if s.len() < 2 {
        0
    } else {
        changes(s.drop_last()) + (if s[s.len() - 1] != s[s.len() - 2] { 1nat } else { 0nat })
    }
}

/// The average run length: values per run of equal values.
pub open spec fn avg_run(s: Seq<i64>) -> int {
    (s.len() / (changes(s) + 1)) as int
}

/// The structural constraints of a column of at least two values, in order:
/// its stride when every step is the first, its sorting direction, its first
/// period from 2 to 16, and its run length when runs average three or more.
pub open spec fn structural_spec(s: Seq<i64>) -> Seq<Constraint> {
    (if first_stride_break(s, 0) is None {
        seq![Constraint::Stride { step: step_at(s, 0) as i64 }]
    } else {
        Seq::empty()
    }) + (match monotonic_dir(s) {
        Some(d) => seq![Constraint::Sorted { direction: d }],
        None => Seq::empty(),
    }) + (match first_period_from(s, 2) {
        Some(p) => seq![Constraint::Periodic { period: p as usize }],
        None => Seq::empty(),
    }) + (if avg_run(s) >= 3 {
        seq![Constraint::RunLength { avg_run: avg_run(s) as usize }]
    } else {
        Seq::empty()
    })
}

fn stride_exec(values: &[i64]) -> (r: Option<i64>)
    requires
        values@.len() >= 2,
        !stride_overflows(values@),
    ensures
        r == (if first_stride_break(values@, 0) is None { Some(step_at(values@, 0) as i64) } else { None }),
{
    let d0: i128 = values[1] as i128 - values[0] as i128;
    let mut i: usize = 0;
    while i + 1 < values.len()
        invariant
            i + 1 <= values@.len(),
            values@.len() >= 2,
            d0 == step_at(values@, 0),
            first_stride_break(values@, 0) == first_stride_break(values@, i as int),
        decreases values.len() - i,
    {
        if values[i + 1] as i128 - values[i] as i128 != d0 {
            return None;
        }
        i = i + 1;
    }
    Some(d0 as i64)
}

fn has_period_exec(values: &[i64], p: usize) -> (r: bool)
    requires
        2 <= p <= 16,
    ensures
        r == has_period(values@, p as int),
{
    if values.len() < p * 3 {
        return false;
    }
    let mut i: usize = p;
    while i < values.len()
        invariant
            p <= i <= values@.len(),
            2 <= p <= 16,
            forall|k: int| p <= k < i ==> #[trigger] values@[k] == values@[k % (p as int)],
        decreases values.len() - i,
    {
        if values[i] != values[i % p] {
            return false;
        }
        i = i + 1;
    }
    true
}

fn period_exec(values: &[i64]) -> (r: Option<usize>)
    ensures
        r == (match first_period_from(values@, 2) {
            Some(p) => Some(p as usize),
            None => None,
        }),
{
    let mut p: usize = 2;
    while p <= 16
        invariant
            2 <= p <= 17,
            first_period_from(values@, 2) == first_period_from(values@, p as int),
        decreases 17 - p,
    {
        if has_period_exec(values, p) {
            return Some(p);
        }
        p = p + 1;
    }
    None
}

fn changes_exec(values: &[i64]) -> (r: usize)
    ensures
        r == changes(values@),
        r < values@.len() || values@.len() == 0,
{
    let mut c: usize = 0;
    let mut i: usize = 1;
    if values.len() < 2 {
        return 0;
    }
    assert(changes(values@.subrange(0, 1)) == 0);
    while i < values.len()
        invariant
            1 <= i <= values@.len(),
            c == changes(values@.subrange(0, i as int)),
            c < i,
        decreases values.len() - i,
    {
        let ghost nxt = values@.subrange(0, i + 1);
        assert(nxt.drop_last() =~= values@.subrange(0, i as int));
        assert(nxt[nxt.len() - 1] == values@[i as int] && nxt[nxt.len() - 2] == values@[i - 1]);
        if values[i] != values[i - 1] {
            c = c + 1;
        }
        i = i + 1;
    }
    assert(values@.subrange(0, i as int) =~= values@);
    c
}

/// Infers the structural constraints of an integer column of at least two
/// values: stride, sorting direction, period and run length.
pub fn infer_structural_constraints(values: &[i64]) -> (r: Vec<Constraint>)
    requires
        !stride_overflows(values@),
    ensures
        values@.len() < 2 ==> r@.len() == 0,
        values@.len() >= 2 ==> r@ == structural_spec(values@),
{
    let mut constraints: Vec<Constraint> = Vec::new();
    if values.len() < 2 {
        return constraints;
    }
    let ghost s = values@;
    match stride_exec(values) {
        Some(step) => constraints.push(Constraint::Stride { step }),
        None => {},
    }
    let ghost c1 = constraints@;
    match monotonic_exec(values) {
        Some(d) => constraints.push(Constraint::Sorted { direction: d }),
        None => {},
    }
    let ghost c2 = constraints@;
    match period_exec(values) {
        Some(p) => constraints.push(Constraint::Periodic { period: p }),
        None => {},
    }
    let ghost c3 = constraints@;
    let total_runs = changes_exec(values) + 1;
    let avg = values.len() / total_runs;
    if avg >= 3 {
        constraints.push(Constraint::RunLength { avg_run: avg });
    }
    assert(constraints@ =~= structural_spec(s));
    constraints
}


/// Every derived class in `cls` names a source below `n`.
pub open spec fn sources_below(cls: Seq<Option<VarClass>>, n: int) -> bool {
    forall|k: int| 0 <= k < cls.len() ==> (#[trigger] cls[k] matches Some(VarClass::DerivedLinear { source_col, .. })
        ==> source_col < n)
}

proof fn lemma_find_source_bound(cols: Seq<Seq<i64>>, cls: Seq<Option<VarClass>>, j: int, i: int)
    requires
        cols.len() <= usize::MAX,
    ensures
        find_source(cols, cls, j, i) matches Some((k, _)) ==> 0 <= k < cols.len() && k <= usize::MAX,
    decreases cols.len() - i,
{
    if i < cols.len() && i >= 0 {
        lemma_find_source_bound(cols, cls, j, i + 1);
    }
}

proof fn lemma_pass2_sources(cols: Seq<Seq<i64>>, cls: Seq<Option<VarClass>>, j: int)
    requires
        cls.len() == cols.len(),
        cols.len() <= usize::MAX,
        sources_below(cls, cols.len() as int),
    ensures
        pass2_from(cols, cls, j).len() == cols.len(),
        sources_below(pass2_from(cols, cls, j), cols.len() as int),
    decreases cols.len() - j,
{
    if j < cols.len() && j >= 0 {
        let next = pass2_step(cols, cls, j);
        lemma_find_source_bound(cols, cls, j, 0);
        assert(sources_below(next, cols.len() as int)) by {
            assert forall|k: int| 0 <= k < next.len() implies (#[trigger] next[k] matches Some(VarClass::DerivedLinear { source_col, .. })
                ==> source_col < cols.len()) by {
                if k != j {
                    assert(next[k] == cls[k]);
                }
            }
        }
        lemma_pass2_sources(cols, next, j + 1);
    }
}

/// Every column that `classify_spec` derives names an existing source column.
pub proof fn lemma_classify_sources(cols: Seq<Seq<i64>>)
    requires
        cols.len() <= usize::MAX,
    ensures
        forall|k: int| 0 <= k < cols.len() ==> (#[trigger] classify_spec(cols)[k] matches VarClass::DerivedLinear { source_col, .. }
            ==> source_col < cols.len()),
{
    let init = Seq::new(cols.len(), |i: int| initial_class(cols[i]));
    assert(sources_below(init, cols.len() as int));
    lemma_pass2_sources(cols, init, 0);
}

/// The derived columns in order: target index, source index, multiplier and offset.
pub open spec fn algebraic_rows(cls: Seq<VarClass>) -> Seq<(int, usize, i64, i64)>
    decreases cls.len(),
{
    if cls.len() == 0 {
        Seq::empty()
    } else {
        let prev = algebraic_rows(cls.drop_last());
        match cls.last() {
            VarClass::DerivedLinear { source_col, multiplier, offset } => prev.push(
                (cls.len() - 1, source_col, multiplier, offset),
            ),
            _ => prev,
        }
    }
}

/// `c` is the algebraic constraint of a derived row, with the columns' names.
pub open spec fn is_algebraic_row(c: Constraint, cols: Seq<(String, Vec<i64>)>, row: (int, usize, i64, i64)) -> bool {
    c matches Constraint::Algebraic { target, source, multiplier, offset } && target@ == cols[row.0].0@
        && source@ == cols[row.1 as int].0@ && multiplier == row.2 && offset == row.3
}

/// Infers the algebraic constraints between integer columns: one per column
/// that `classify_variables` derives from another, in column order.
pub fn infer_algebraic_constraints(columns: &[(String, Vec<i64>)]) -> (r: Vec<Constraint>)
    ensures
        r@.len() == algebraic_rows(classify_spec(column_values(columns@))).len(),
        forall|i: int| 0 <= i < r@.len() ==> is_algebraic_row(
            #[trigger] r@[i],
            columns@,
            algebraic_rows(classify_spec(column_values(columns@)))[i],
        ),
{
    let ghost cls = classify_spec(column_values(columns@));
    let classes = classify_variables(columns);
    assert(column_values(columns@).len() == columns.len());
    proof {
        lemma_classify_sources(column_values(columns@));
    }
    let mut out: Vec<Constraint> = Vec::new();
    let mut i: usize = 0;
    while i < classes.len()
        invariant
            i <= classes@.len(),
            classes@.len() == columns@.len(),
            cls == classify_spec(column_values(columns@)),
            cls.len() == columns@.len(),
            forall|k: int| 0 <= k < classes@.len() ==> (#[trigger] classes@[k]).0@ == columns@[k].0@ && classes@[k].1 == cls[k],
            forall|k: int| 0 <= k < cls.len() ==> (#[trigger] cls[k] matches VarClass::DerivedLinear { source_col, .. }
                ==> source_col < cls.len()),
            out@.len() == algebraic_rows(cls.subrange(0, i as int)).len(),
            forall|q: int| 0 <= q < out@.len() ==> is_algebraic_row(#[trigger] out@[q], columns@, algebraic_rows(cls.subrange(0, i as int))[q]),
        decreases classes.len() - i,
    {
        let ghost pre = cls.subrange(0, i as int);
        let ghost nxt = cls.subrange(0, i + 1);
        assert(nxt.drop_last() =~= pre);
        assert(nxt.last() == cls[i as int]);
        match classes[i].1 {
            VarClass::DerivedLinear { source_col, multiplier, offset } => {
                assert(cls[i as int] matches VarClass::DerivedLinear { .. });
                let target = classes[i].0.clone();
                let source = columns[source_col].0.clone();
                let ghost before = out@;
                out.push(Constraint::Algebraic { target, source, multiplier, offset });
                assert forall|q: int| 0 <= q < out@.len() implies is_algebraic_row(#[trigger] out@[q], columns@, algebraic_rows(nxt)[q]) by {
                    if q < out@.len() - 1 {
                        assert(out@[q] == before[q]);
                    }
                }
            },
            _ => {},
        }
        i = i + 1;
    }
    assert(cls.subrange(0, i as int) =~= cls);
    out
}


/// The bytes of a column as integer values.
pub open spec fn bytes_as_ints(d: Seq<u8>) -> Seq<i64> {
    Seq::new(d.len(), |i: int| d[i] as i64)
}

/// How many constraints `infer_int_constraints` finds on a column.
pub open spec fn int_constraint_count(s: Seq<i64>) -> int {
    if s.len() == 0 {
        0
    } else if all_equal(s) {
        1
    } else {
        1 + (if int_enum_applies(s) { 1int } else { 0 }) + (if monotonic_dir(s) is Some { 1int } else { 0 })
    }
}

/// How many constraints the analysis of a byte column finds: integer,
/// structural and algebraic constraints of the column `data`.
pub open spec fn cas_constraint_count(d: Seq<u8>) -> int {
    let s = bytes_as_ints(d);
    int_constraint_count(s) + (if s.len() < 2 { 0 } else { structural_spec(s).len() as int })
        + algebraic_rows(classify_spec(seq![s])).len()
}

/// The `CAS` magic bytes.
pub open spec fn cas_magic() -> Seq<u8> {
    seq![0x43u8, 0x41u8, 0x53u8]
}

/// `CAS` version.
pub const CAS_VERSION: u8 = 1;

/// A `CAS` frame: magic, version, constraint count (2 LE), the estimated
/// benefit (4 bytes, an `f32` LE), then the data unchanged.
pub open spec fn cas_frame_spec(d: Seq<u8>, count: u16, benefit: Seq<u8>) -> Seq<u8> {
    cas_magic() + seq![CAS_VERSION] + le16(count) + benefit + d
}

/// What `cas_decompress` recovers from a frame: `None` for a frame shorter
/// than eight bytes or without the magic, else everything after the
/// ten-byte header.
pub open spec fn cas_payload(f: Seq<u8>) -> Option<Seq<u8>> {
    if f.len() < 10 || f.subrange(0, 3) != cas_magic() {
        None
    } else {
        Some(f.subrange(10, f.len() as int))
    }
}

proof fn lemma_first_stride_break_bound(s: Seq<i64>, i: int)
    ensures
        first_stride_break(s, i) matches Some(k) ==> 0 <= k && k + 1 < s.len(),
    decreases s.len() - i,
{
    if i >= 0 && i + 1 < s.len() && step_at(s, i) == step_at(s, 0) {
        lemma_first_stride_break_bound(s, i + 1);
    }
}

proof fn lemma_bytes_no_overflow(d: Seq<u8>)
    ensures
        !stride_overflows(bytes_as_ints(d)),
{
    let s = bytes_as_ints(d);
    lemma_first_stride_break_bound(s, 0);
    if s.len() >= 2 {
        assert(s[0] == d[0] as i64 && s[1] == d[1] as i64);
        if let Some(k) = first_stride_break(s, 0) {
            assert(s[k] == d[k] as i64 && s[k + 1] == d[k + 1] as i64);
        }
    }
}

/// Frames data as a `CAS` frame, with the constraint count of its analysis
/// as a byte column and the given benefit bytes.
pub fn cas_frame(data: &[u8], benefit: [u8; 4]) -> (r: Vec<u8>)
    ensures
        r@ == cas_frame_spec(data@, cas_constraint_count(data@) as u16, benefit@),
{
    let mut values: Vec<i64> = Vec::new();
    let mut i: usize = 0;
    while i < data.len()
        invariant
            i <= data@.len(),
            values@ == bytes_as_ints(data@).subrange(0, i as int),
        decreases data.len() - i,
    {
        values.push(data[i] as i64);
        i = i + 1;
        assert(values@ =~= bytes_as_ints(data@).subrange(0, i as int));
    }
    assert(values@ =~= bytes_as_ints(data@));
    proof {
        lemma_bytes_no_overflow(data@);
    }
    let c1 = infer_int_constraints("data", values.as_slice());
    let c2 = infer_structural_constraints(values.as_slice());
    let ghost s = values@;
    let columns: Vec<(String, Vec<i64>)> = vec![("data".to_owned(), values)];
    assert(column_values(columns@) =~= seq![s]);
    let c3 = infer_algebraic_constraints(columns.as_slice());
    assert(c1@.len() == int_constraint_count(s) && c1@.len() <= 3);
    assert(c2@.len() <= 4);
    assert(c3@.len() <= 1) by {
        let cls = classify_spec(seq![s]);
        assert(cls.len() == 1);
        assert(algebraic_rows(cls.drop_last()).len() == 0);
    }
    let count = c1.len() + c2.len() + c3.len();
    let num_c = count as u16;
    let mut out: Vec<u8> = Vec::new();
    out.push(0x43u8);
    out.push(0x41u8);
    out.push(0x53u8);
    out.push(CAS_VERSION);
    push_u16(&mut out, num_c);
    push_all(&mut out, &benefit);
    push_all(&mut out, data);
    assert(out@ =~= cas_frame_spec(data@, cas_constraint_count(data@) as u16, benefit@));
    out
}

/// Recovers the data of a `CAS` frame: what follows its 10-byte header.
/// Input shorter than the header, or without the magic, is not a frame.
pub fn cas_decompress(data: &[u8]) -> (r: Result<Vec<u8>, CpacError>)
    ensures
        match cas_payload(data@) {
            Some(p) => r matches Ok(v) && v@ == p,
            None => r matches Err(e) && e is InvalidFrame,
        },
{
    if data.len() < 10 || !(data[0] == 0x43u8 && data[1] == 0x41u8 && data[2] == 0x53u8) {
        proof {
            if data@.len() >= 10 && data@.subrange(0, 3) == cas_magic() {
                assert(data@.subrange(0, 3)[0] == data@[0]);
                assert(data@.subrange(0, 3)[1] == data@[1]);
                assert(data@.subrange(0, 3)[2] == data@[2]);
            }
        }
        return Err(CpacError::InvalidFrame("not a CAS frame".to_owned()));
    }
    assert(data@.subrange(0, 3) =~= cas_magic());
    Ok(slice_to_vec(data, 10, data.len()))
}

/// Decompressing a `CAS` frame gives back the framed data.
pub proof fn lemma_cas_roundtrip(d: Seq<u8>, count: u16, benefit: Seq<u8>)
    requires
        benefit.len() == 4,
    ensures
        cas_payload(cas_frame_spec(d, count, benefit)) == Some(d),
{
    let f = cas_frame_spec(d, count, benefit);
    assert(f.subrange(0, 3) =~= cas_magic());
    assert(f.subrange(10, f.len() as int) =~= d);
}


/// A recommended transform: its name, its place in the chain (lower runs
/// first) and the observed confidence that it helps, in percent.
#[derive(Clone, Debug)]
pub struct TransformRecommendation {
    /// Transform name.
    pub name: String,
    /// Priority (lower = applied first in the chain).
    pub priority: u8,
    /// Empirical confidence that the transform helps, in percent (0–100).
    pub confidence_pct: u8,
}

/// A recommendation as plain values: name, priority, confidence.
pub open spec fn rec_view(r: TransformRecommendation) -> (Seq<char>, u8, u8) {
    (r.name@, r.priority, r.confidence_pct)
}

/// The recommendations as plain values.
pub open spec fn recs_view(rs: Seq<TransformRecommendation>) -> Seq<(Seq<char>, u8, u8)> {
    Seq::new(rs.len(), |i: int| rec_view(rs[i]))
}

/// The transforms a constraint suggests, in order.
pub open spec fn rec_rules(c: Constraint) -> Seq<(Seq<char>, u8, u8)> {
    match c {
        Constraint::Monotonic { .. } => seq![("delta"@, 10u8, 85u8), ("zigzag"@, 20u8, 80u8)],
        Constraint::Enumeration { values } => if values@.len() <= 256 {
            seq![("vocab"@, 5u8, 75u8)]
        } else {
            Seq::empty()
        },
        Constraint::Range { min, max } => if max - min <= 65535 {
            seq![("range_pack"@, 30u8, 70u8)]
        } else {
            Seq::empty()
        },
        Constraint::RunLength { avg_run } => if avg_run >= 4 {
            seq![("rle"@, 8u8, 40u8)]
        } else {
            Seq::empty()
        },
        Constraint::Constant { .. } => seq![("const_elim"@, 1u8, 99u8)],
        Constraint::Stride { .. } => seq![("stride_elim"@, 2u8, 95u8)],
        Constraint::Periodic { .. } => seq![("delta"@, 10u8, 85u8)],
        Constraint::LengthBounded { max_len, .. } => if max_len <= 32 {
            seq![("vocab"@, 5u8, 75u8)]
        } else {
            Seq::empty()
        },
        Constraint::XorDeltaBenefit { .. } => seq![("float_xor"@, 10u8, 80u8), ("byte_plane"@, 25u8, 60u8)],
        Constraint::FloatClustered { .. } => seq![("float_xor"@, 10u8, 80u8)],
        Constraint::Sorted { .. } => Seq::empty(),
        Constraint::Nullable { .. } => Seq::empty(),
        Constraint::FunctionalDependency { .. } => seq![("projection"@, 0u8, 85u8)],
        Constraint::Algebraic { .. } => seq![("projection"@, 0u8, 90u8)],
    }
}

/// Whether a recommendation with the name is already present.
pub open spec fn has_rec_named(recs: Seq<(Seq<char>, u8, u8)>, name: Seq<char>) -> bool {
    exists|k: int| 0 <= k < recs.len() && (#[trigger] recs[k]).0 == name
}

/// Adds a recommendation unless one of that name is present.
pub open spec fn push_unique_spec(recs: Seq<(Seq<char>, u8, u8)>, item: (Seq<char>, u8, u8)) -> Seq<(Seq<char>, u8, u8)> {
    if has_rec_named(recs, item.0) {
        recs
    } else {
        recs.push(item)
    }
}

/// Adds each of `items` in order, skipping names already present.
pub open spec fn push_all_unique(recs: Seq<(Seq<char>, u8, u8)>, items: Seq<(Seq<char>, u8, u8)>) -> Seq<(Seq<char>, u8, u8)>
    decreases items.len(),
{
    if items.len() == 0 {
        recs
    } else {
        push_all_unique(push_unique_spec(recs, items[0]), items.drop_first())
    }
}

/// The recommendations the constraints suggest, first come first kept.
pub open spec fn collect_recs(cs: Seq<Constraint>) -> Seq<(Seq<char>, u8, u8)>
    decreases cs.len(),
{
    if cs.len() == 0 {
        Seq::empty()
    } else {
        push_all_unique(collect_recs(cs.drop_last()), rec_rules(cs.last()))
    }
}

/// The first position from `k` whose priority exceeds `p` (the length if none).
pub open spec fn first_above(s: Seq<(Seq<char>, u8, u8)>, p: u8, k: int) -> int
    decreases s.len() - k,
{
    if k < 0 || k >= s.len() {
        s.len() as int
    } else if s[k].1 > p {
        k
    } else {
        first_above(s, p, k + 1)
    }
}

/// The stable sort by priority: each element goes after every earlier one of
/// lower or equal priority.
pub open spec fn sort_by_priority(s: Seq<(Seq<char>, u8, u8)>) -> Seq<(Seq<char>, u8, u8)>
    decreases s.len(),
{
    if s.len() == 0 {
        Seq::empty()
    } else {
        let sorted = sort_by_priority(s.drop_last());
        sorted.insert(first_above(sorted, s.last().1, 0), s.last())
    }
}

/// Priorities never decrease along the sequence.
pub open spec fn priority_sorted(s: Seq<(Seq<char>, u8, u8)>) -> bool {
    forall|i: int, j: int| 0 <= i < j < s.len() ==> (#[trigger] s[i]).1 <= (#[trigger] s[j]).1
}

proof fn lemma_first_above(s: Seq<(Seq<char>, u8, u8)>, p: u8, k: int)
    requires
        0 <= k <= s.len(),
        priority_sorted(s),
        forall|j: int| 0 <= j < k ==> (#[trigger] s[j]).1 <= p,
    ensures
        k <= first_above(s, p, k) <= s.len(),
        forall|j: int| 0 <= j < first_above(s, p, k) ==> (#[trigger] s[j]).1 <= p,
        forall|j: int| first_above(s, p, k) <= j < s.len() ==> (#[trigger] s[j]).1 > p,
    decreases s.len() - k,
{
    if k < s.len() && s[k].1 <= p {
        lemma_first_above(s, p, k + 1);
    }
}

/// The stable sort by priority leaves the priorities in order.
pub proof fn lemma_sort_by_priority_sorted(s: Seq<(Seq<char>, u8, u8)>)
    ensures
        priority_sorted(sort_by_priority(s)),
        sort_by_priority(s).len() == s.len(),
    decreases s.len(),
{
    if s.len() > 0 {
        let sorted = sort_by_priority(s.drop_last());
        lemma_sort_by_priority_sorted(s.drop_last());
        let x = s.last();
        lemma_first_above(sorted, x.1, 0);
        let p = first_above(sorted, x.1, 0);
        let r = sorted.insert(p, x);
        assert forall|i: int, j: int| 0 <= i < j < r.len() implies (#[trigger] r[i]).1 <= (#[trigger] r[j]).1 by {
            if j < p {
                assert(r[i] == sorted[i] && r[j] == sorted[j]);
            } else if j == p {
                assert(r[i] == sorted[i]);
            } else if i == p {
                assert(r[j] == sorted[j - 1]);
            } else if i < p {
                assert(r[i] == sorted[i] && r[j] == sorted[j - 1]);
            } else {
                assert(r[i] == sorted[i - 1] && r[j] == sorted[j - 1]);
            }
        }
    }
}

fn push_unique(recs: &mut Vec<TransformRecommendation>, name: &str, priority: u8, confidence_pct: u8)
    ensures
        recs_view(final(recs)@) == push_unique_spec(recs_view(old(recs)@), (name@, priority, confidence_pct)),
{
    let ghost v = recs_view(recs@);
    let n = name.to_owned();
    let mut k: usize = 0;
    while k < recs.len()
        invariant
            k <= recs@.len(),
            v == recs_view(recs@),
            n@ == name@,
            forall|j: int| 0 <= j < k ==> (#[trigger] v[j]).0 != name@,
        decreases recs.len() - k,
    {
        if recs[k].name == n {
            assert(v[k as int].0 == name@);
            assert(has_rec_named(v, name@));
            return;
        }
        k = k + 1;
    }
    assert(!has_rec_named(v, name@));
    recs.push(TransformRecommendation { name: n, priority, confidence_pct });
    assert(recs_view(recs@) =~= v.push((name@, priority, confidence_pct)));
}

fn apply_rules(recs: &mut Vec<TransformRecommendation>, c: &Constraint)
    ensures
        recs_view(final(recs)@) == push_all_unique(recs_view(old(recs)@), rec_rules(*c)),
{
    let ghost v0 = recs_view(recs@);
    proof {
        reveal_with_fuel(push_all_unique, 3);
    }
    match c {
        Constraint::Monotonic { .. } => {
            push_unique(recs, "delta", 10, 85);
            push_unique(recs, "zigzag", 20, 80);
            assert(rec_rules(*c).drop_first().drop_first() =~= Seq::<(Seq<char>, u8, u8)>::empty());
        },
        Constraint::Enumeration { values } => {
            if values.len() <= 256 {
                push_unique(recs, "vocab", 5, 75);
            }
        },
        Constraint::Range { min, max } => {
            if (*max as i128) - (*min as i128) <= 65535 {
                push_unique(recs, "range_pack", 30, 70);
            }
        },
        Constraint::RunLength { avg_run } => {
            if *avg_run >= 4 {
                push_unique(recs, "rle", 8, 40);
            }
        },
        Constraint::Constant { .. } => {
            push_unique(recs, "const_elim", 1, 99);
        },
        Constraint::Stride { .. } => {
            push_unique(recs, "stride_elim", 2, 95);
        },
        Constraint::Periodic { .. } => {
            push_unique(recs, "delta", 10, 85);
        },
        Constraint::LengthBounded { max_len, .. } => {
            if *max_len <= 32 {
                push_unique(recs, "vocab", 5, 75);
            }
        },
        Constraint::XorDeltaBenefit { .. } => {
            push_unique(recs, "float_xor", 10, 80);
            push_unique(recs, "byte_plane", 25, 60);
            assert(rec_rules(*c).drop_first().drop_first() =~= Seq::<(Seq<char>, u8, u8)>::empty());
        },
        Constraint::FloatClustered { .. } => {
            push_unique(recs, "float_xor", 10, 80);
        },
        Constraint::Sorted { .. } => {},
        Constraint::Nullable { .. } => {},
        Constraint::FunctionalDependency { .. } => {
            push_unique(recs, "projection", 0, 85);
        },
        Constraint::Algebraic { .. } => {
            push_unique(recs, "projection", 0, 90);
        },
    }
}

/// Maps constraints to recommended transforms: each constraint suggests its
/// transforms, a name already suggested is kept as first suggested, and the
/// list is sorted stably by priority, the order of the transform chain.
pub fn recommend_transforms(constraints: &[Constraint]) -> (r: Vec<TransformRecommendation>)
    ensures
        recs_view(r@) == sort_by_priority(collect_recs(constraints@)),
        priority_sorted(recs_view(r@)),
{
    let mut recs: Vec<TransformRecommendation> = Vec::new();
    let mut i: usize = 0;
    assert(recs_view(recs@) =~= collect_recs(constraints@.subrange(0, 0)));
    while i < constraints.len()
        invariant
            i <= constraints@.len(),
            recs_view(recs@) == collect_recs(constraints@.subrange(0, i as int)),
        decreases constraints.len() - i,
    {
        apply_rules(&mut recs, &constraints[i]);
        let ghost nxt = constraints@.subrange(0, i + 1);
        assert(nxt.drop_last() =~= constraints@.subrange(0, i as int));
        assert(nxt.last() == constraints@[i as int]);
        i = i + 1;
    }
    assert(constraints@.subrange(0, i as int) =~= constraints@);
    let ghost unsorted = recs_view(recs@);
    let mut sorted: Vec<TransformRecommendation> = Vec::new();
    let mut k: usize = 0;
    let total = recs.len();
    assert(recs_view(sorted@) =~= sort_by_priority(unsorted.subrange(0, 0)));
    assert(recs_view(recs@) =~= unsorted.subrange(0, total as int));
    while recs.len() > 0
        invariant
            k + recs@.len() == total,
            total == unsorted.len(),
            recs_view(recs@) == unsorted.subrange(k as int, total as int),
            recs_view(sorted@) == sort_by_priority(unsorted.subrange(0, k as int)),
        decreases recs.len(),
    {
        let ghost before = recs_view(recs@);
        let x = recs.remove(0);
        let ghost xv = rec_view(x);
        assert(xv == unsorted[k as int]) by {
            assert(before[0] == unsorted.subrange(k as int, total as int)[0]);
        }
        let ghost sv = recs_view(sorted@);
        proof {
            lemma_sort_by_priority_sorted(unsorted.subrange(0, k as int));
            lemma_first_above(sv, xv.1, 0);
        }
        let mut p: usize = 0;
        while p < sorted.len() && sorted[p].priority <= x.priority
            invariant
                p <= sorted@.len(),
                sv == recs_view(sorted@),
                first_above(sv, xv.1, 0) == first_above(sv, xv.1, p as int),
                xv == rec_view(x),
            decreases sorted.len() - p,
        {
            p = p + 1;
        }
        sorted.insert(p, x);
        proof {
            let nxt = unsorted.subrange(0, k + 1);
            assert(nxt.drop_last() =~= unsorted.subrange(0, k as int));
            assert(nxt.last() == xv);
            assert(recs_view(sorted@) =~= sv.insert(p as int, xv));
            assert(recs_view(recs@) =~= before.drop_first());
            assert(recs_view(recs@) =~= unsorted.subrange(k + 1, total as int));
        }
        k = k + 1;
    }
    assert(unsorted.subrange(0, k as int) =~= unsorted);
    proof {
        lemma_sort_by_priority_sorted(unsorted);
    }
    sorted
}

/// Every recommendation named like `t` that a rule makes is `t` itself.
spec fn name_fixed(t: (Seq<char>, u8, u8)) -> bool {
    forall|c: Constraint, j: int| 0 <= j < rec_rules(c).len() && (#[trigger] rec_rules(c)[j]).0 == t.0 ==> rec_rules(c)[j] == t
}

/// Every recommendation in `s` named like `t` is `t`.
spec fn consistent_with(s: Seq<(Seq<char>, u8, u8)>, t: (Seq<char>, u8, u8)) -> bool {
    forall|k: int| 0 <= k < s.len() && (#[trigger] s[k]).0 == t.0 ==> s[k] == t
}

proof fn lemma_push_all_keeps(recs: Seq<(Seq<char>, u8, u8)>, items: Seq<(Seq<char>, u8, u8)>, t: (Seq<char>, u8, u8))
    requires
        consistent_with(recs, t),
        consistent_with(items, t),
    ensures
        consistent_with(push_all_unique(recs, items), t),
        recs.contains(t) || items.contains(t) ==> push_all_unique(recs, items).contains(t),
    decreases items.len(),
{
    if items.len() > 0 {
        let it = items[0];
        let r2 = push_unique_spec(recs, it);
        assert(consistent_with(r2, t)) by {
            if !has_rec_named(recs, it.0) {
                assert forall|k: int| 0 <= k < r2.len() && (#[trigger] r2[k]).0 == t.0 implies r2[k] == t by {
                    if k < recs.len() {
                        assert(r2[k] == recs[k]);
                    }
                }
            }
        }
        assert(consistent_with(items.drop_first(), t)) by {
            assert forall|k: int| 0 <= k < items.drop_first().len() && (#[trigger] items.drop_first()[k]).0 == t.0
                implies items.drop_first()[k] == t by {
                assert(items.drop_first()[k] == items[k + 1]);
            }
        }
        if recs.contains(t) {
            let k = choose|k: int| 0 <= k < recs.len() && recs[k] == t;
            if !has_rec_named(recs, it.0) {
                assert(r2[k] == t);
            }
            assert(r2.contains(t));
        }
        if it == t {
            if has_rec_named(recs, it.0) {
                let k = choose|k: int| 0 <= k < recs.len() && (#[trigger] recs[k]).0 == it.0;
                assert(recs[k] == t);
                assert(r2.contains(t));
            } else {
                assert(r2[recs.len() as int] == t);
                assert(r2.contains(t));
            }
        }
        if items.contains(t) && it != t {
            let j = choose|j: int| 0 <= j < items.len() && items[j] == t;
            assert(items.drop_first()[j - 1] == t);
        }
        lemma_push_all_keeps(r2, items.drop_first(), t);
    }
}

proof fn lemma_collect_keeps(cs: Seq<Constraint>, t: (Seq<char>, u8, u8), i: int)
    requires
        name_fixed(t),
        0 <= i < cs.len(),
        rec_rules(cs[i]).contains(t),
    ensures
        collect_recs(cs).contains(t),
    decreases cs.len(),
{
    lemma_collect_consistent(cs.drop_last(), t);
    let rules = rec_rules(cs.last());
    assert(consistent_with(rules, t)) by {
        assert forall|k: int| 0 <= k < rules.len() && (#[trigger] rules[k]).0 == t.0 implies rules[k] == t by {
            assert(rec_rules(cs.last())[k].0 == t.0);
        }
    }
    if i < cs.len() - 1 {
        assert(cs.drop_last()[i] == cs[i]);
        lemma_collect_keeps(cs.drop_last(), t, i);
    }
    lemma_push_all_keeps(collect_recs(cs.drop_last()), rules, t);
}

proof fn lemma_collect_consistent(cs: Seq<Constraint>, t: (Seq<char>, u8, u8))
    requires
        name_fixed(t),
    ensures
        consistent_with(collect_recs(cs), t),
    decreases cs.len(),
{
    if cs.len() > 0 {
        lemma_collect_consistent(cs.drop_last(), t);
        let rules = rec_rules(cs.last());
        assert(consistent_with(rules, t)) by {
            assert forall|k: int| 0 <= k < rules.len() && (#[trigger] rules[k]).0 == t.0 implies rules[k] == t by {
                assert(rec_rules(cs.last())[k].0 == t.0);
            }
        }
        lemma_push_all_keeps(collect_recs(cs.drop_last()), rules, t);
    } else {
        assert(collect_recs(cs) =~= Seq::<(Seq<char>, u8, u8)>::empty());
    }
}

proof fn lemma_sort_keeps(s: Seq<(Seq<char>, u8, u8)>, x: (Seq<char>, u8, u8))
    requires
        s.contains(x),
    ensures
        sort_by_priority(s).contains(x),
    decreases s.len(),
{
    let sorted = sort_by_priority(s.drop_last());
    lemma_sort_by_priority_sorted(s.drop_last());
    lemma_first_above(sorted, s.last().1, 0);
    let p = first_above(sorted, s.last().1, 0);
    let r = sorted.insert(p, s.last());
    if s.last() == x {
        assert(r[p] == x);
    } else {
        let k = choose|k: int| 0 <= k < s.len() && s[k] == x;
        assert(s.drop_last()[k] == x);
        lemma_sort_keeps(s.drop_last(), x);
        let q = choose|q: int| 0 <= q < sorted.len() && sorted[q] == x;
        if q < p {
            assert(r[q] == x);
        } else {
            assert(r[q + 1] == x);
        }
    }
}

proof fn lemma_reveal_rule_names()
    ensures
        "stride_elim"@ == seq!['s', 't', 'r', 'i', 'd', 'e', '_', 'e', 'l', 'i', 'm'],
        "const_elim"@ == seq!['c', 'o', 'n', 's', 't', '_', 'e', 'l', 'i', 'm'],
        "delta"@ == seq!['d', 'e', 'l', 't', 'a'],
        "zigzag"@ == seq!['z', 'i', 'g', 'z', 'a', 'g'],
        "rle"@ == seq!['r', 'l', 'e'],
        "range_pack"@ == seq!['r', 'a', 'n', 'g', 'e', '_', 'p', 'a', 'c', 'k'],
        "vocab"@ == seq!['v', 'o', 'c', 'a', 'b'],
        "float_xor"@ == seq!['f', 'l', 'o', 'a', 't', '_', 'x', 'o', 'r'],
        "byte_plane"@ == seq!['b', 'y', 't', 'e', '_', 'p', 'l', 'a', 'n', 'e'],
        "projection"@ == seq!['p', 'r', 'o', 'j', 'e', 'c', 't', 'i', 'o', 'n'],
{
    reveal_strlit("stride_elim");
    reveal_strlit("const_elim");
    reveal_strlit("delta");
    reveal_strlit("zigzag");
    reveal_strlit("rle");
    reveal_strlit("range_pack");
    reveal_strlit("vocab");
    reveal_strlit("float_xor");
    reveal_strlit("byte_plane");
    reveal_strlit("projection");
}

proof fn lemma_fixed_stride_elim()
    ensures
        name_fixed(("stride_elim"@, 2u8, 95u8)),
{
    lemma_reveal_rule_names();
    assert forall|c: Constraint, j: int| 0 <= j < rec_rules(c).len() && (#[trigger] rec_rules(c)[j]).0 == "stride_elim"@
        implies rec_rules(c)[j] == ("stride_elim"@, 2u8, 95u8) by {
        assert(rec_rules(c)[j].0.len() == 11);
    }
}

proof fn lemma_fixed_const_elim()
    ensures
        name_fixed(("const_elim"@, 1u8, 99u8)),
{
    lemma_reveal_rule_names();
    assert forall|c: Constraint, j: int| 0 <= j < rec_rules(c).len() && (#[trigger] rec_rules(c)[j]).0 == "const_elim"@
        implies rec_rules(c)[j] == ("const_elim"@, 1u8, 99u8) by {
        assert(rec_rules(c)[j].0[0] == 'c');
    }
}

proof fn lemma_fixed_delta()
    ensures
        name_fixed(("delta"@, 10u8, 85u8)),
{
    lemma_reveal_rule_names();
    assert forall|c: Constraint, j: int| 0 <= j < rec_rules(c).len() && (#[trigger] rec_rules(c)[j]).0 == "delta"@
        implies rec_rules(c)[j] == ("delta"@, 10u8, 85u8) by {
        assert(rec_rules(c)[j].0[0] == 'd');
    }
}

proof fn lemma_fixed_zigzag()
    ensures
        name_fixed(("zigzag"@, 20u8, 80u8)),
{
    lemma_reveal_rule_names();
    assert forall|c: Constraint, j: int| 0 <= j < rec_rules(c).len() && (#[trigger] rec_rules(c)[j]).0 == "zigzag"@
        implies rec_rules(c)[j] == ("zigzag"@, 20u8, 80u8) by {
        assert(rec_rules(c)[j].0[0] == 'z');
    }
}

proof fn lemma_fixed_rle()
    ensures
        name_fixed(("rle"@, 8u8, 40u8)),
{
    lemma_reveal_rule_names();
    assert forall|c: Constraint, j: int| 0 <= j < rec_rules(c).len() && (#[trigger] rec_rules(c)[j]).0 == "rle"@
        implies rec_rules(c)[j] == ("rle"@, 8u8, 40u8) by {
        assert(rec_rules(c)[j].0.len() == 3);
    }
}

proof fn lemma_fixed_range_pack()
    ensures
        name_fixed(("range_pack"@, 30u8, 70u8)),
{
    lemma_reveal_rule_names();
    assert forall|c: Constraint, j: int| 0 <= j < rec_rules(c).len() && (#[trigger] rec_rules(c)[j]).0 == "range_pack"@
        implies rec_rules(c)[j] == ("range_pack"@, 30u8, 70u8) by {
        assert(rec_rules(c)[j].0[1] == 'a' && rec_rules(c)[j].0.len() == 10);
    }
}

proof fn lemma_fixed_vocab()
    ensures
        name_fixed(("vocab"@, 5u8, 75u8)),
{
    lemma_reveal_rule_names();
    assert forall|c: Constraint, j: int| 0 <= j < rec_rules(c).len() && (#[trigger] rec_rules(c)[j]).0 == "vocab"@
        implies rec_rules(c)[j] == ("vocab"@, 5u8, 75u8) by {
        assert(rec_rules(c)[j].0[0] == 'v');
    }
}

/// Each constraint is answered by its transforms, whatever else the list
/// holds: a stride by `stride_elim` (priority 2, 95%), a constant by
/// `const_elim` (1, 99%), monotonic values by `delta` (10, 85%) and `zigzag`
/// (20, 80%), long runs (average at least 4) by `rle` (8, 40%), a range of
/// width at most 65535 by `range_pack` (30, 70%), and an enumeration of at
/// most 256 values by `vocab` (5, 75%). `recommend_transforms` returns
/// `sort_by_priority(collect_recs(cs))`.
pub proof fn lemma_constraint_recommendations(cs: Seq<Constraint>, i: int)
    requires
        0 <= i < cs.len(),
    ensures
        cs[i] is Stride ==> sort_by_priority(collect_recs(cs)).contains(("stride_elim"@, 2u8, 95u8)),
        cs[i] is Constant ==> sort_by_priority(collect_recs(cs)).contains(("const_elim"@, 1u8, 99u8)),
        cs[i] is Monotonic ==> sort_by_priority(collect_recs(cs)).contains(("delta"@, 10u8, 85u8))
            && sort_by_priority(collect_recs(cs)).contains(("zigzag"@, 20u8, 80u8)),
        (cs[i] matches Constraint::RunLength { avg_run } && avg_run >= 4) ==> sort_by_priority(collect_recs(cs)).contains(
            ("rle"@, 8u8, 40u8),
        ),
        (cs[i] matches Constraint::Range { min, max } && max - min <= 65535) ==> sort_by_priority(
            collect_recs(cs),
        ).contains(("range_pack"@, 30u8, 70u8)),
        (cs[i] matches Constraint::Enumeration { values } && values@.len() <= 256) ==> sort_by_priority(
            collect_recs(cs),
        ).contains(("vocab"@, 5u8, 75u8)),
{
    lemma_fixed_stride_elim();
    lemma_fixed_const_elim();
    lemma_fixed_delta();
    lemma_fixed_zigzag();
    lemma_fixed_rle();
    lemma_fixed_range_pack();
    lemma_fixed_vocab();
    let rules = rec_rules(cs[i]);
    let t_stride = ("stride_elim"@, 2u8, 95u8);
    let t_const = ("const_elim"@, 1u8, 99u8);
    let t_delta = ("delta"@, 10u8, 85u8);
    let t_zigzag = ("zigzag"@, 20u8, 80u8);
    let t_rle = ("rle"@, 8u8, 40u8);
    let t_range = ("range_pack"@, 30u8, 70u8);
    let t_vocab = ("vocab"@, 5u8, 75u8);
    if cs[i] is Stride {
        assert(rules[0] == t_stride);
        lemma_collect_keeps(cs, t_stride, i);
        lemma_sort_keeps(collect_recs(cs), t_stride);
    }
    if cs[i] is Constant {
        assert(rules[0] == t_const);
        lemma_collect_keeps(cs, t_const, i);
        lemma_sort_keeps(collect_recs(cs), t_const);
    }
    if cs[i] is Monotonic {
        assert(rules[0] == t_delta);
        assert(rules[1] == t_zigzag);
        lemma_collect_keeps(cs, t_delta, i);
        lemma_sort_keeps(collect_recs(cs), t_delta);
        lemma_collect_keeps(cs, t_zigzag, i);
        lemma_sort_keeps(collect_recs(cs), t_zigzag);
    }
    if cs[i] matches Constraint::RunLength { avg_run } && avg_run >= 4 {
        assert(rules[0] == t_rle);
        lemma_collect_keeps(cs, t_rle, i);
        lemma_sort_keeps(collect_recs(cs), t_rle);
    }
    if cs[i] matches Constraint::Range { min, max } && max - min <= 65535 {
        assert(rules[0] == t_range);
        lemma_collect_keeps(cs, t_range, i);
        lemma_sort_keeps(collect_recs(cs), t_range);
    }
    if cs[i] matches Constraint::Enumeration { values } && values@.len() <= 256 {
        assert(rules[0] == t_vocab);
        lemma_collect_keeps(cs, t_vocab, i);
        lemma_sort_keeps(collect_recs(cs), t_vocab);
    }
}

} // verus!
