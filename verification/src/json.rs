//! JSON text to and from columns: the JSON domain handler.
//!
//! serde_json parses the text; its values come back as plain values (a
//! string's text, `null`, or any other value as JSON writes it), and the
//! fields of the objects are grouped into columns by `json_columns`. Columns
//! are written back as a pretty-printed JSON array of objects.

use vstd::prelude::*;
use vstd::string::StringExecFns;
use vstd::utf8::{decode_utf8, valid_utf8};
use serde_json::Value;
use crate::bytes::slice_to_vec;
use crate::decompose::texts;
use crate::domains::{utf8_check, JsonHandler};
use crate::error::CpacError;
use crate::json_columns::{are_json_columns, items_view, json_columns, pairs_view};
use crate::wal::string_from_utf8;

verus! {

/// A parsed JSON value as the handler reads it.
#[derive(Clone, Debug, PartialEq)]
pub enum JsonScalar {
    /// A string, by its text.
    Str(String),
    /// `null`.
    Null,
    /// A number, boolean, array or object, as JSON writes it.
    Text(String),
}

/// A parsed JSON value as plain values.
pub enum JsonScalarView {
    Str(Seq<char>),
    Null,
    Text(Seq<char>),
}

/// The plain values of a parsed value.
pub open spec fn scalar_view(s: JsonScalar) -> JsonScalarView {
    match s {
        JsonScalar::Str(t) => JsonScalarView::Str(t@),
        JsonScalar::Null => JsonScalarView::Null,
        JsonScalar::Text(t) => JsonScalarView::Text(t@),
    }
}

/// The plain values of parsed items: each an object's fields, or `None`.
pub open spec fn rows_view(rows: Seq<Option<Vec<(String, JsonScalar)>>>) -> Seq<Option<Seq<(Seq<char>, JsonScalarView)>>> {
    Seq::new(
        rows.len(),
        |i: int|
            match rows[i] {
                Some(f) => Some(Seq::new(f@.len(), |k: int| (f@[k].0@, scalar_view(f@[k].1)))),
                None => None,
            },
    )
}

/// What parsing the JSON text `text` gives: whether it is an array, and its
/// items (the value itself when it is not an array), each as an object's
/// fields in the order serde_json keeps them or `None` for a non-object; or
/// the parser's error message.
pub uninterp spec fn json_parse_of(text: Seq<char>) -> Result<(bool, Seq<Option<Seq<(Seq<char>, JsonScalarView)>>>), Seq<char>>;

/// Parses JSON text.
///
/// Calls `serde_json::from_str` into `serde_json::Value` and converts: an
/// array gives its items, another value gives itself; an object item gives
/// its fields, any other item `None`; a field's value is a string's text,
/// `null`, or the value as `Value::to_string` writes it. The outcome is named
/// by `json_parse_of`.
#[verifier::external_body]
fn json_parse(text: &str) -> (r: Result<(bool, Vec<Option<Vec<(String, JsonScalar)>>>), String>)
    ensures
        match r {
            Ok((a, rows)) => json_parse_of(text@) == Ok::<(bool, Seq<Option<Seq<(Seq<char>, JsonScalarView)>>>), Seq<char>>((a, rows_view(rows@))),
            Err(m) => json_parse_of(text@) == Err::<(bool, Seq<Option<Seq<(Seq<char>, JsonScalarView)>>>), Seq<char>>(m@),
        },
{
    let scalar = |x: &Value| match x {
        Value::String(s) => JsonScalar::Str(s.clone()),
        Value::Null => JsonScalar::Null,
        other => JsonScalar::Text(other.to_string()),
    };
    let row = |x: &Value| match x {
        Value::Object(o) => Some(o.iter().map(|(k, v)| (k.clone(), scalar(v))).collect()),
        _ => None,
    };
    match serde_json::from_str(text) {
        Ok(Value::Array(a)) => Ok((true, a.iter().map(row).collect())),
        Ok(v) => Ok((false, vec![row(&v)])),
        Err(e) => Err(e.to_string()),
    }
}

/// The JSON text serde_json writes, pretty-printed, for an array with one
/// object per row, each object built from the row's `(key, string)` fields.
pub uninterp spec fn json_pretty_of(rows: Seq<Seq<(Seq<char>, Seq<char>)>>) -> Seq<u8>;

/// The rows as plain values.
pub open spec fn pair_rows_view(rows: Seq<Vec<(String, String)>>) -> Seq<Seq<(Seq<char>, Seq<char>)>> {
    Seq::new(rows.len(), |i: int| pairs_view(rows[i]@))
}

/// Writes rows as a pretty-printed JSON array of objects.
///
/// Builds one `serde_json::Value::Object` per row from its fields (string
/// values) and calls `serde_json::to_vec_pretty`, which fails only for a
/// failing `Serialize` impl or a map with non-string keys, neither of which a
/// `Value` with string keys has. The text is named by `json_pretty_of`.
#[verifier::external_body]
fn json_pretty(rows: &Vec<Vec<(String, String)>>) -> (r: Result<Vec<u8>, String>)
    ensures
        r is Ok,
        r matches Ok(b) ==> b@ == json_pretty_of(pair_rows_view(rows@)),
{
    let arr: Vec<Value> = rows.iter().map(|r| Value::Object(r.iter().map(|(k, v)| (k.clone(), Value::String(v.clone()))).collect())).collect();
    match serde_json::to_vec_pretty(&arr) {
        Ok(b) => Ok(b),
        Err(e) => Err(e.to_string()),
    }
}

/// What a JSON text decomposes into.
#[derive(Clone, Debug, PartialEq)]
pub enum JsonDecomposition {
    /// One column per key, in sorted key order.
    Columns(Vec<(String, Vec<String>)>),
    /// A JSON value that is neither an array nor an object: the bytes.
    Serial(Vec<u8>),
}

/// The text a field's value stands for in a column: a string's own text,
/// nothing for `null`, else the value as JSON writes it.
pub open spec fn scalar_text(s: JsonScalarView) -> Seq<char> {
    match s {
        JsonScalarView::Str(t) => t,
        JsonScalarView::Null => Seq::empty(),
        JsonScalarView::Text(t) => t,
    }
}

/// The parsed items with each value replaced by its text.
pub open spec fn text_items(rows: Seq<Option<Seq<(Seq<char>, JsonScalarView)>>>) -> Seq<Option<Seq<(Seq<char>, Seq<char>)>>> {
    Seq::new(
        rows.len(),
        |i: int|
            match rows[i] {
                Some(f) => Some(Seq::new(f.len(), |k: int| (f[k].0, scalar_text(f[k].1)))),
                None => None,
            },
    )
}

fn scalar_string(s: &JsonScalar) -> (r: String)
    ensures
        r@ == scalar_text(scalar_view(*s)),
{
    match s {
        JsonScalar::Str(t) => t.clone(),
        JsonScalar::Null => String::new(),
        JsonScalar::Text(t) => t.clone(),
    }
}

/// Each parsed item with its values as texts.
fn to_text_items(rows: &Vec<Option<Vec<(String, JsonScalar)>>>) -> (r: Vec<Option<Vec<(String, String)>>>)
    ensures
        items_view(r@) == text_items(rows_view(rows@)),
{
    let mut out: Vec<Option<Vec<(String, String)>>> = Vec::new();
    let mut i: usize = 0;
    while i < rows.len()
        invariant
            i <= rows@.len(),
            out@.len() == i,
            forall|q: int| 0 <= q < i ==> #[trigger] items_view(out@)[q] == text_items(rows_view(rows@))[q],
        decreases rows.len() - i,
    {
        let item = match &rows[i] {
            Some(fields) => {
                let mut fs: Vec<(String, String)> = Vec::new();
                let mut k: usize = 0;
                while k < fields.len()
                    invariant
                        k <= fields@.len(),
                        fs@.len() == k,
                        forall|q: int| 0 <= q < k ==> (#[trigger] fs@[q]).0@ == fields@[q].0@ && fs@[q].1@ == scalar_text(
                            scalar_view(fields@[q].1),
                        ),
                    decreases fields.len() - k,
                {
                    let key = fields[k].0.clone();
                    let val = scalar_string(&fields[k].1);
                    fs.push((key, val));
                    k = k + 1;
                }
                proof {
                    let fv = Seq::new(fields@.len(), |q: int| (fields@[q].0@, scalar_view(fields@[q].1)));
                    assert(pairs_view(fs@) =~= Seq::new(fv.len(), |q: int| (fv[q].0, scalar_text(fv[q].1))));
                }
                Some(fs)
            },
            None => None,
        };
        let ghost prev = out@;
        out.push(item);
        proof {
            assert forall|q: int| 0 <= q < i + 1 implies #[trigger] items_view(out@)[q] == text_items(rows_view(rows@))[q] by {
                if q < i {
                    assert(out@[q] == prev[q]);
                    assert(items_view(prev)[q] == text_items(rows_view(rows@))[q]);
                }
            }
        }
        i = i + 1;
    }
    assert(items_view(out@) =~= text_items(rows_view(rows@)));
    out
}

/// The columns JSON text `text` decomposes into, when it parses: those of
/// the items of an array or of a single object; `None` for another value.
pub open spec fn json_items_of(parsed: (bool, Seq<Option<Seq<(Seq<char>, JsonScalarView)>>>)) -> Option<Seq<Option<Seq<(Seq<char>, Seq<char>)>>>> {
    if parsed.0 || (parsed.1.len() == 1 && parsed.1[0] is Some) {
        Some(text_items(parsed.1))
    } else {
        None
    }
}

impl JsonHandler {
    /// Decomposes JSON text: an array of objects, or a single object, into
    /// one column per key (sorted), each holding that key's values as texts
    /// in the order of the objects; any other JSON value stays as its bytes.
    /// Text that is not UTF-8 or not JSON is a `Transform` error naming the
    /// parser's complaint.
    pub fn decompose(&self, data: &[u8]) -> (r: Result<JsonDecomposition, CpacError>)
        ensures
            r is Err <==> !valid_utf8(data@) || json_parse_of(decode_utf8(data@)) is Err,
            r matches Err(e) ==> e is Transform,
            valid_utf8(data@) ==> match json_parse_of(decode_utf8(data@)) {
                Err(m) => r matches Err(CpacError::Transform(msg)) && msg@ == "JSON parse: "@ + m,
                Ok(p) => match json_items_of(p) {
                    Some(items) => r matches Ok(JsonDecomposition::Columns(c)) && are_json_columns(c@, items),
                    None => r matches Ok(JsonDecomposition::Serial(b)) && b@ == data@,
                },
            },
    {
        match utf8_check(data) {
            Err(msg) => {
                let mut m = "JSON: invalid UTF-8: ".to_owned();
                m.append(msg.as_str());
                return Err(CpacError::Transform(m));
            },
            Ok(()) => {},
        }
        let text = match string_from_utf8(slice_to_vec(data, 0, data.len())) {
            Some(t) => t,
            None => {
                assert(data@.subrange(0, data@.len() as int) =~= data@);
                return Err(CpacError::Transform("JSON: invalid UTF-8".to_owned()));
            },
        };
        assert(data@.subrange(0, data@.len() as int) =~= data@);
        match json_parse(text.as_str()) {
            Err(msg) => {
                let mut m = "JSON parse: ".to_owned();
                m.append(msg.as_str());
                Err(CpacError::Transform(m))
            },
            Ok((is_array, rows)) => {
                let single_object = rows.len() == 1 && rows[0].is_some();
                if is_array || single_object {
                    let items = to_text_items(&rows);
                    let cols = json_columns(items.as_slice());
                    Ok(JsonDecomposition::Columns(cols))
                } else {
                    Ok(JsonDecomposition::Serial(slice_to_vec(data, 0, data.len())))
                }
            },
        }
    }
}

/// The fields of row `i` of columns: each of the first `m` columns that has
/// an `i`-th value gives `(name, value)`, in column order.
pub open spec fn row_fields(cols: Seq<(String, Vec<String>)>, i: int, m: int) -> Seq<(Seq<char>, Seq<char>)>
    decreases m,
{
    if m <= 0 {
        Seq::empty()
    } else {
        row_fields(cols, i, m - 1) + (if i < cols[m - 1].1@.len() {
            seq![(cols[m - 1].0@, cols[m - 1].1@[i]@)]
        } else {
            Seq::empty()
        })
    }
}

/// The rows of columns: one per value of the first column.
pub open spec fn json_rows(cols: Seq<(String, Vec<String>)>) -> Seq<Seq<(Seq<char>, Seq<char>)>> {
    Seq::new(cols[0].1@.len(), |i: int| row_fields(cols, i, cols.len() as int))
}

fn build_row(columns: &[(String, Vec<String>)], i: usize) -> (r: Vec<(String, String)>)
    ensures
        pairs_view(r@) == row_fields(columns@, i as int, columns@.len() as int),
{
    let mut out: Vec<(String, String)> = Vec::new();
    let mut j: usize = 0;
    while j < columns.len()
        invariant
            j <= columns@.len(),
            pairs_view(out@) == row_fields(columns@, i as int, j as int),
        decreases columns.len() - j,
    {
        if i < columns[j].1.len() {
            let name = columns[j].0.clone();
            let val = columns[j].1[i].clone();
            let ghost prev = out@;
            out.push((name, val));
            assert(pairs_view(out@) =~= pairs_view(prev) + seq![(columns@[j as int].0@, columns@[j as int].1@[i as int]@)]);
        } else {
            assert(pairs_view(out@) =~= pairs_view(out@) + Seq::<(Seq<char>, Seq<char>)>::empty());
        }
        j = j + 1;
    }
    out
}

impl JsonHandler {
    /// Writes columns back as a pretty-printed JSON array with one object per
    /// value of the first column, each holding every column's value at that
    /// row as a string. There must be a first column and no longer one.
    pub fn reconstruct(&self, columns: &[(String, Vec<String>)]) -> (r: Result<Vec<u8>, CpacError>)
        requires
            columns@.len() > 0,
            forall|j: int| 0 <= j < columns@.len() ==> (#[trigger] columns@[j]).1@.len() <= columns@[0].1@.len(),
        ensures
            r matches Ok(b) && b@ == json_pretty_of(json_rows(columns@)),
    {
        let n = columns[0].1.len();
        let mut rows: Vec<Vec<(String, String)>> = Vec::new();
        let mut i: usize = 0;
        while i < n
            invariant
                i <= n,
                n == columns@[0].1@.len(),
                rows@.len() == i,
                forall|q: int| 0 <= q < i ==> pairs_view(#[trigger] rows@[q]@) == row_fields(columns@, q, columns@.len() as int),
            decreases n - i,
        {
            let row = build_row(columns, i);
            rows.push(row);
            i = i + 1;
        }
        assert(pair_rows_view(rows@) =~= json_rows(columns@));
        match json_pretty(&rows) {
            Ok(b) => Ok(b),
            Err(msg) => {
                let mut m = "JSON serialize: ".to_owned();
                m.append(msg.as_str());
                Err(CpacError::Transform(m))
            },
        }
    }
}

} // verus!
