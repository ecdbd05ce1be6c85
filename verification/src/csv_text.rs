//! CSV text written from a column set reads back as that column set.
//!
//! `CsvHandler::reconstruct` writes the column names and then one line per
//! row, each joined by commas; `CsvHandler::decompose` splits such text again.
//! The law below states when the second gives back what the first wrote.

use vstd::prelude::*;
use vstd::utf8::{encode_utf8, valid_utf8};
use crate::archive::lossy_decode;
use crate::decompose::{
    column_names, comma_joined, csv_row, csv_rows_text, lemma_ascii_valid, lemma_lines_append, lemma_trim_no_edge,
    no_edge_ws, texts,
};
use crate::domains::{csv_column, csv_delimiter, csv_field, csv_header_bytes, csv_records, split_acc, split_spec};
use crate::text::{count_byte, lines_spec, strip_cr, trim_end_to, trim_spec, trim_start_from, ws_len_at, ws_len_before};

verus! {

/// A CSV cell that reads back as itself: its UTF-8 holds no line feed,
/// carriage return, comma, tab or pipe, and no whitespace at either end.
pub open spec fn csv_cell_ok(s: Seq<char>) -> bool {
    let e = encode_utf8(s);
    &&& forall|i: int| 0 <= i < e.len() ==> #[trigger] e[i] != 0x0Au8 && e[i] != 0x0Du8 && e[i] != 0x2Cu8
        && e[i] != 0x09u8 && e[i] != 0x7Cu8
    &&& no_edge_ws(e)
}

/// A byte that no cell holds but a comma: neither line break, tab nor pipe.
spec fn plain_byte(b: u8) -> bool {
    b != 0x0Au8 && b != 0x0Du8 && b != 0x09u8 && b != 0x7Cu8
}

/// Every byte of texts joined by commas is a comma or a byte of a text.
proof fn lemma_joined_plain(fs: Seq<Seq<char>>)
    requires
        forall|j: int| 0 <= j < fs.len() ==> #[trigger] csv_cell_ok(fs[j]),
    ensures
        forall|i: int| 0 <= i < comma_joined(fs).len() ==> #[trigger] plain_byte(comma_joined(fs)[i]),
    decreases fs.len(),
{
    if fs.len() == 1 {
        assert(csv_cell_ok(fs[0]));
    } else if fs.len() > 1 {
        let a = comma_joined(fs.drop_last());
        let e = encode_utf8(fs.last());
        assert forall|j: int| 0 <= j < fs.drop_last().len() implies #[trigger] csv_cell_ok(fs.drop_last()[j]) by {
            assert(fs.drop_last()[j] == fs[j]);
        }
        lemma_joined_plain(fs.drop_last());
        assert(csv_cell_ok(fs[fs.len() - 1]));
        let c = comma_joined(fs);
        assert(c == a + seq![0x2Cu8] + e);
        assert forall|i: int| 0 <= i < c.len() implies #[trigger] plain_byte(c[i]) by {
            if i < a.len() {
                assert(c[i] == a[i]);
            } else if i == a.len() {
                assert(c[i] == 0x2Cu8);
            } else {
                assert(c[i] == e[i - a.len() - 1]);
            }
        }
    }
}

/// A byte absent from `b` is counted zero times.
proof fn lemma_count_absent(b: Seq<u8>, c: u8)
    requires
        forall|i: int| 0 <= i < b.len() ==> #[trigger] b[i] != c,
    ensures
        count_byte(b, c) == 0,
    decreases b.len(),
{
    if b.len() > 0 {
        assert forall|i: int| 0 <= i < b.drop_last().len() implies #[trigger] b.drop_last()[i] != c by {
            assert(b.drop_last()[i] == b[i]);
        }
        lemma_count_absent(b.drop_last(), c);
        assert(b.last() == b[b.len() - 1]);
    }
}

/// Without a delimiter from `i` on, the rest is one piece.
proof fn lemma_split_none(x: Seq<u8>, d: u8, i: int, st: int)
    requires
        0 <= st <= i <= x.len(),
        forall|k: int| i <= k < x.len() ==> #[trigger] x[k] != d,
    ensures
        split_acc(x, d, i, st) == seq![x.subrange(st, x.len() as int)],
    decreases x.len() - i,
{
    if i < x.len() {
        lemma_split_none(x, d, i + 1, st);
    }
}

/// Splitting after a prefix is splitting the rest.
proof fn lemma_split_shift(p: Seq<u8>, q: Seq<u8>, d: u8, j: int, st: int)
    requires
        0 <= st <= j <= q.len(),
    ensures
        split_acc(p + q, d, p.len() + j, p.len() + st) == split_acc(q, d, j, st),
    decreases q.len() - j,
{
    let b = p + q;
    let o = p.len() as int;
    if j < q.len() {
        assert(b[o + j] == q[j]);
        lemma_split_shift(p, q, d, j + 1, st);
        lemma_split_shift(p, q, d, j + 1, j + 1);
        assert(b.subrange(o + st, o + j) =~= q.subrange(st, j));
    } else {
        assert(b.subrange(o + st, b.len() as int) =~= q.subrange(st, q.len() as int));
    }
}

/// Splitting `p`, a delimiter and `q` gives the pieces of `p`, then those of `q`.
proof fn lemma_split_concat(p: Seq<u8>, q: Seq<u8>, d: u8, i: int, st: int)
    requires
        0 <= st <= i <= p.len(),
    ensures
        split_acc(p + seq![d] + q, d, i, st) == split_acc(p, d, i, st) + split_spec(q, d),
    decreases p.len() - i,
{
    let b = p + seq![d] + q;
    if i < p.len() {
        assert(b[i] == p[i]);
        if p[i] == d {
            lemma_split_concat(p, q, d, i + 1, i + 1);
            assert(b.subrange(st, i) =~= p.subrange(st, i));
            assert(seq![p.subrange(st, i)] + split_acc(p, d, i + 1, i + 1) + split_spec(q, d)
                =~= seq![p.subrange(st, i)] + (split_acc(p, d, i + 1, i + 1) + split_spec(q, d)));
        } else {
            lemma_split_concat(p, q, d, i + 1, st);
        }
    } else {
        assert(b[i] == d);
        assert(b.subrange(st, i) =~= p.subrange(st, p.len() as int));
        assert(b == (p + seq![d]) + q);
        lemma_split_shift(p + seq![d], q, d, 0, 0);
    }
}

/// Texts without commas, joined by commas, split at the commas into their
/// encodings.
proof fn lemma_split_joined(fs: Seq<Seq<char>>)
    requires
        fs.len() > 0,
        forall|j: int| 0 <= j < fs.len() ==> #[trigger] csv_cell_ok(fs[j]),
    ensures
        split_spec(comma_joined(fs), 0x2Cu8) == Seq::new(fs.len(), |j: int| encode_utf8(fs[j])),
    decreases fs.len(),
{
    if fs.len() == 1 {
        let e = encode_utf8(fs[0]);
        assert(csv_cell_ok(fs[0]));
        lemma_split_none(e, 0x2Cu8, 0, 0);
        assert(e.subrange(0, e.len() as int) =~= e);
        assert(split_spec(comma_joined(fs), 0x2Cu8) =~= Seq::new(fs.len(), |j: int| encode_utf8(fs[j])));
    } else {
        let init = fs.drop_last();
        let a = comma_joined(init);
        let e = encode_utf8(fs.last());
        assert forall|j: int| 0 <= j < init.len() implies #[trigger] csv_cell_ok(init[j]) by {
            assert(init[j] == fs[j]);
        }
        lemma_split_joined(init);
        lemma_split_concat(a, e, 0x2Cu8, 0, 0);
        assert(csv_cell_ok(fs[fs.len() - 1]));
        lemma_split_none(e, 0x2Cu8, 0, 0);
        assert(e.subrange(0, e.len() as int) =~= e);
        assert(split_spec(comma_joined(fs), 0x2Cu8) =~= Seq::new(fs.len(), |j: int| encode_utf8(fs[j])));
    }
}


/// Trimming from `i` stops at or before a comma at `k`.
proof fn lemma_trim_start_stops(b: Seq<u8>, i: int, k: int)
    requires
        0 <= i <= k < b.len(),
        b[k] == 0x2Cu8,
    ensures
        i <= trim_start_from(b, i) <= k,
    decreases b.len() - i,
{
    let w = ws_len_at(b, i);
    if w != 0 {
        assert(i + w <= k);
        lemma_trim_start_stops(b, i + w, k);
    }
}

/// Trimming back from `j` stops after a comma at `k`.
proof fn lemma_trim_end_stops(b: Seq<u8>, lo: int, j: int, k: int)
    requires
        0 <= lo <= k < j <= b.len(),
        b[k] == 0x2Cu8,
    ensures
        k < trim_end_to(b, lo, j) <= j,
    decreases j,
{
    let w = ws_len_before(b, j);
    if w != 0 && j - w >= lo {
        assert(k < j - w);
        lemma_trim_end_stops(b, lo, j - w, k);
    }
}

/// Bytes holding a comma are not blank.
proof fn lemma_comma_not_blank(b: Seq<u8>, k: int)
    requires
        0 <= k < b.len(),
        b[k] == 0x2Cu8,
    ensures
        trim_spec(b).len() > 0,
{
    lemma_trim_start_stops(b, 0, k);
    let s = trim_start_from(b, 0);
    lemma_trim_end_stops(b, s, b.len() as int, k);
}

/// Every byte of `b` is plain.
spec fn all_plain(b: Seq<u8>) -> bool {
    forall|i: int| 0 <= i < b.len() ==> #[trigger] plain_byte(b[i])
}

/// The line of row `r`.
spec fn row_line(cols: Seq<(String, Vec<String>)>, r: int) -> Seq<u8> {
    comma_joined(csv_row(cols, r))
}

/// The lines of the header and the first `m` rows are those texts.
proof fn lemma_csv_lines(cols: Seq<(String, Vec<String>)>, h: Seq<u8>, m: int)
    requires
        0 <= m,
        all_plain(h),
        forall|r: int| 0 <= r < m ==> #[trigger] all_plain(row_line(cols, r)),
    ensures
        lines_spec(h + seq![0x0Au8] + csv_rows_text(cols, m)) == seq![h] + Seq::new(m as nat, |r: int| row_line(cols, r)),
    decreases m,
{
    if m == 0 {
        assert(h + seq![0x0Au8] + csv_rows_text(cols, m) =~= Seq::<u8>::empty() + (h + seq![0x0Au8]));
        assert forall|i: int| 0 <= i < h.len() implies #[trigger] h[i] != 0x0Au8 by {
            assert(plain_byte(h[i]));
        }
        lemma_lines_append(Seq::<u8>::empty(), h);
        assert(lines_spec(Seq::<u8>::empty()) =~= Seq::<Seq<u8>>::empty());
        if h.len() > 0 {
            assert(plain_byte(h[h.len() - 1]));
        }
        assert(strip_cr(h) == h);
        assert(seq![h] + Seq::new(m as nat, |r: int| row_line(cols, r)) =~= seq![h]);
    } else {
        lemma_csv_lines(cols, h, m - 1);
        let p = h + seq![0x0Au8] + csv_rows_text(cols, m - 1);
        let x = row_line(cols, m - 1);
        assert(all_plain(x));
        assert(h + seq![0x0Au8] + csv_rows_text(cols, m) =~= p + (x + seq![0x0Au8]));
        assert(p.last() == 0x0Au8) by {
            let t = csv_rows_text(cols, m - 1);
            if t.len() > 0 {
                assert(p[p.len() - 1] == t[t.len() - 1]);
            }
        }
        assert forall|i: int| 0 <= i < x.len() implies #[trigger] x[i] != 0x0Au8 by {
            assert(plain_byte(x[i]));
        }
        lemma_lines_append(p, x);
        if x.len() > 0 {
            assert(plain_byte(x[x.len() - 1]));
        }
        assert(strip_cr(x) == x);
        assert(seq![h] + Seq::new(m as nat, |r: int| row_line(cols, r))
            =~= (seq![h] + Seq::new((m - 1) as nat, |r: int| row_line(cols, r))).push(x));
    }
}

/// Lines none of which is blank are all records.
proof fn lemma_records_all(ls: Seq<Seq<u8>>)
    requires
        forall|i: int| 0 <= i < ls.len() ==> #[trigger] trim_spec(ls[i]).len() > 0,
    ensures
        csv_records(ls) == ls,
    decreases ls.len(),
{
    if ls.len() > 0 {
        assert forall|i: int| 0 <= i < ls.drop_last().len() implies #[trigger] trim_spec(ls.drop_last()[i]).len() > 0 by {
            assert(ls.drop_last()[i] == ls[i]);
        }
        lemma_records_all(ls.drop_last());
        assert(trim_spec(ls[ls.len() - 1]).len() > 0);
        assert(ls.drop_last().push(ls.last()) =~= ls);
    }
}

/// Texts joined by commas are UTF-8.
proof fn lemma_joined_valid(fs: Seq<Seq<char>>)
    ensures
        valid_utf8(comma_joined(fs)),
    decreases fs.len(),
{
    broadcast use vstd::utf8::encode_utf8_valid_utf8, vstd::utf8::valid_utf8_concat;
    if fs.len() > 1 {
        lemma_joined_valid(fs.drop_last());
        lemma_ascii_valid(seq![0x2Cu8]);
        assert(valid_utf8(comma_joined(fs.drop_last()) + seq![0x2Cu8]));
    } else if fs.len() == 0 {
        assert(comma_joined(fs) =~= encode_utf8(Seq::<char>::empty()));
    }
}

/// The lines of the first `m` rows are UTF-8.
proof fn lemma_rows_valid(cols: Seq<(String, Vec<String>)>, m: int)
    ensures
        valid_utf8(csv_rows_text(cols, m)),
    decreases m,
{
    broadcast use vstd::utf8::valid_utf8_concat;
    if m <= 0 {
        assert(csv_rows_text(cols, m) =~= encode_utf8(Seq::<char>::empty()));
        vstd::utf8::encode_utf8_valid_utf8(Seq::<char>::empty());
    } else {
        lemma_rows_valid(cols, m - 1);
        lemma_joined_valid(csv_row(cols, m - 1));
        lemma_ascii_valid(seq![0x0Au8]);
        assert(valid_utf8(csv_rows_text(cols, m - 1) + comma_joined(csv_row(cols, m - 1))));
    }
}

/// A column set whose CSV text reads back as it: at least one column, all
/// columns of one length, every name and value a `csv_cell_ok` cell, and,
/// with a single column, no empty value (its line would be blank and
/// skipped).
pub open spec fn csv_columns_ok(cols: Seq<(String, Vec<String>)>) -> bool {
    &&& cols.len() > 0
    &&& forall|j: int| 0 <= j < cols.len() ==> (#[trigger] cols[j]).1@.len() == cols[0].1@.len()
    &&& forall|j: int| 0 <= j < cols.len() ==> csv_cell_ok((#[trigger] cols[j]).0@)
    &&& forall|j: int, r: int| 0 <= j < cols.len() && 0 <= r < cols[j].1@.len() ==> csv_cell_ok(
        (#[trigger] cols[j].1@[r])@,
    )
    &&& cols.len() == 1 ==> forall|r: int| 0 <= r < cols[0].1@.len() ==> (#[trigger] cols[0].1@[r])@.len() > 0
}

/// Row `r`'s line is plain, not blank, and its fields decode to the values.
proof fn lemma_row(cols: Seq<(String, Vec<String>)>, r: int)
    requires
        csv_columns_ok(cols),
        0 <= r < cols[0].1@.len(),
    ensures
        all_plain(row_line(cols, r)),
        trim_spec(row_line(cols, r)).len() > 0,
        forall|j: int| 0 <= j < cols.len() ==> lossy_decode(#[trigger] csv_field(row_line(cols, r), 0x2Cu8, j)) == cols[j].1@[r]@,
{
    broadcast use vstd::utf8::encode_utf8_valid_utf8, vstd::utf8::encode_utf8_decode_utf8;
    let row = csv_row(cols, r);
    let line = row_line(cols, r);
    assert forall|j: int| 0 <= j < row.len() implies #[trigger] csv_cell_ok(row[j]) by {
        assert(cols[j].1@.len() == cols[0].1@.len());
        assert(row[j] == cols[j].1@[r]@);
    }
    lemma_joined_plain(row);
    lemma_split_joined(row);
    if row.len() >= 2 {
        let a = comma_joined(row.drop_last());
        assert(line == a + seq![0x2Cu8] + encode_utf8(row.last()));
        assert(line[a.len() as int] == 0x2Cu8);
        lemma_comma_not_blank(line, a.len() as int);
    } else {
        let e = encode_utf8(row[0]);
        assert(line == e);
        assert(cols[0].1@[r]@.len() > 0);
        assert(row[0] == cols[0].1@[r]@);
        assert(csv_cell_ok(row[0]));
        lemma_trim_no_edge(e);
        if e.len() == 0 {
            assert(e =~= Seq::<u8>::empty());
            assert(vstd::utf8::decode_utf8(Seq::<u8>::empty()) =~= Seq::<char>::empty());
        }
    }
    assert forall|j: int| 0 <= j < cols.len() implies lossy_decode(#[trigger] csv_field(line, 0x2Cu8, j)) == cols[j].1@[r]@ by {
        assert(csv_cell_ok(row[j]));
        lemma_trim_no_edge(encode_utf8(row[j]));
        assert(cols[j].1@.len() == cols[0].1@.len());
        assert(row[j] == cols[j].1@[r]@);
    }
}

/// Writing a column set as CSV and reading the text back gives the column
/// set again, when it reads back as itself (see `csv_columns_ok`): the text
/// `CsvHandler::reconstruct` writes is UTF-8 with at least one line, and the
/// header names and columns `CsvHandler::decompose` reads from it are the
/// names and values of the columns.
pub proof fn lemma_csv_roundtrip(cols: Seq<(String, Vec<String>)>)
    requires
        csv_columns_ok(cols),
    ensures
        ({
            let out = comma_joined(column_names(cols)) + seq![0x0Au8] + csv_rows_text(cols, cols[0].1@.len() as int);
            &&& valid_utf8(out)
            &&& lines_spec(out).len() > 0
            &&& csv_header_bytes(out).len() == cols.len()
            &&& forall|j: int| 0 <= j < cols.len() ==> lossy_decode(#[trigger] csv_header_bytes(out)[j]) == cols[j].0@
                && csv_column(out, j) == texts(cols[j].1@)
        }),
{
    broadcast use vstd::utf8::encode_utf8_valid_utf8, vstd::utf8::encode_utf8_decode_utf8, vstd::utf8::valid_utf8_concat;
    let names = column_names(cols);
    let h = comma_joined(names);
    let n = cols[0].1@.len() as int;
    let out = h + seq![0x0Au8] + csv_rows_text(cols, n);
    assert forall|j: int| 0 <= j < names.len() implies #[trigger] csv_cell_ok(names[j]) by {
        assert(csv_cell_ok(cols[j].0@));
    }
    lemma_joined_plain(names);
    lemma_split_joined(names);
    assert forall|r: int| 0 <= r < n implies #[trigger] all_plain(row_line(cols, r)) by {
        lemma_row(cols, r);
    }
    lemma_csv_lines(cols, h, n);
    let rows = Seq::new(n as nat, |r: int| row_line(cols, r));
    let ls = lines_spec(out);
    assert(ls[0] == h);
    assert forall|i: int| 0 <= i < h.len() implies #[trigger] h[i] != 0x09u8 by {
        assert(plain_byte(h[i]));
    }
    assert forall|i: int| 0 <= i < h.len() implies #[trigger] h[i] != 0x7Cu8 by {
        assert(plain_byte(h[i]));
    }
    lemma_count_absent(h, 0x09u8);
    lemma_count_absent(h, 0x7Cu8);
    assert(csv_delimiter(out) == 0x2Cu8);
    assert forall|j: int| 0 <= j < cols.len() implies lossy_decode(#[trigger] csv_header_bytes(out)[j]) == cols[j].0@ by {
        assert(csv_cell_ok(names[j]));
        lemma_trim_no_edge(encode_utf8(names[j]));
    }
    assert(ls.drop_first() =~= rows);
    assert forall|r: int| 0 <= r < rows.len() implies #[trigger] trim_spec(rows[r]).len() > 0 by {
        lemma_row(cols, r);
    }
    lemma_records_all(rows);
    assert forall|j: int| 0 <= j < cols.len() implies csv_column(out, j) == texts(#[trigger] cols[j].1@) by {
        assert(cols[j].1@.len() == n);
        assert forall|r: int| 0 <= r < n implies lossy_decode(csv_field(rows[r], 0x2Cu8, j)) == cols[j].1@[r]@ by {
            lemma_row(cols, r);
        }
        assert(csv_column(out, j) =~= texts(cols[j].1@));
    }
    lemma_joined_valid(names);
    lemma_rows_valid(cols, n);
    lemma_ascii_valid(seq![0x0Au8]);
    assert(valid_utf8(h + seq![0x0Au8]));
    assert(valid_utf8(out));
    assert(ls.len() > 0);
    assert(csv_header_bytes(out).len() == cols.len());
}

} // verus!
