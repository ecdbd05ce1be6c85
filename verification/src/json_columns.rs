//! The columns of a JSON array of objects: one column per key, the keys in
//! sorted order, each holding the key's values in the order they come.
//!
//! The text of each value (a string's own text, a number or boolean as JSON
//! writes it, nothing for `null`) is made where the JSON is parsed; here the
//! fields are grouped.

use vstd::prelude::*;
use crate::decompose::texts;
use crate::strset::{insert_sorted, is_sorted_set_of, strings_view};

verus! {

/// The key and value texts of one object's fields.
pub open spec fn pairs_view(v: Seq<(String, String)>) -> Seq<(Seq<char>, Seq<char>)> {
    Seq::new(v.len(), |i: int| (v[i].0@, v[i].1@))
}

/// The items of the array as plain values: an object's fields, or `None`
/// for an item that is not an object.
pub open spec fn items_view(items: Seq<Option<Vec<(String, String)>>>) -> Seq<Option<Seq<(Seq<char>, Seq<char>)>>> {
    Seq::new(
        items.len(),
        |i: int|
            match items[i] {
                Some(v) => Some(pairs_view(v@)),
                None => None,
            },
    )
}

/// The fields of all objects of the array, in order; an item that is not an
/// object (`None`) has none.
pub open spec fn json_pairs(items: Seq<Option<Seq<(Seq<char>, Seq<char>)>>>) -> Seq<(Seq<char>, Seq<char>)>
    decreases items.len(),
{
    if items.len() == 0 {
        Seq::empty()
    } else {
        json_pairs(items.drop_last()) + match items.last() {
            Some(v) => v,
            None => Seq::empty(),
        }
    }
}

/// `cols` are the columns of the array whose items are `items`: one per key,
/// keys strictly increasing, each holding its key's values in order.
pub open spec fn are_json_columns(cols: Seq<(String, Vec<String>)>, items: Seq<Option<Seq<(Seq<char>, Seq<char>)>>>) -> bool {
    &&& is_sorted_set_of(column_keys(cols), pair_keys(json_pairs(items)))
    &&& forall|j: int| 0 <= j < cols.len() ==> texts((#[trigger] cols[j]).1@) == values_of_key(json_pairs(items), cols[j].0@)
}

/// The keys of fields.
pub open spec fn pair_keys(ps: Seq<(Seq<char>, Seq<char>)>) -> Seq<Seq<char>> {
    Seq::new(ps.len(), |i: int| ps[i].0)
}

/// The values of the fields with key `k`, in order.
pub open spec fn values_of_key(ps: Seq<(Seq<char>, Seq<char>)>, k: Seq<char>) -> Seq<Seq<char>>
    decreases ps.len(),
{
    if ps.len() == 0 {
        Seq::empty()
    } else if ps.last().0 == k {
        values_of_key(ps.drop_last(), k).push(ps.last().1)
    } else {
        values_of_key(ps.drop_last(), k)
    }
}

/// The names of columns.
pub open spec fn column_keys(cols: Seq<(String, Vec<String>)>) -> Seq<Seq<char>> {
    Seq::new(cols.len(), |j: int| cols[j].0@)
}

/// All fields of the objects, in order.
fn flatten_pairs(items: &[Option<Vec<(String, String)>>]) -> (r: Vec<(String, String)>)
    ensures
        pairs_view(r@) == json_pairs(items_view(items@)),
{
    let mut out: Vec<(String, String)> = Vec::new();
    let mut i: usize = 0;
    while i < items.len()
        invariant
            i <= items@.len(),
            pairs_view(out@) == json_pairs(items_view(items@.subrange(0, i as int))),
        decreases items.len() - i,
    {
        let ghost before = pairs_view(out@);
        let ghost pre = items@.subrange(0, i as int);
        match &items[i] {
            Some(fields) => {
                let mut k: usize = 0;
                while k < fields.len()
                    invariant
                        k <= fields@.len(),
                        pairs_view(out@) == before + pairs_view(fields@.subrange(0, k as int)),
                    decreases fields.len() - k,
                {
                    let key = fields[k].0.clone();
                    let val = fields[k].1.clone();
                    let ghost prev = out@;
                    out.push((key, val));
                    assert(pairs_view(out@) =~= pairs_view(prev).push((fields@[k as int].0@, fields@[k as int].1@)));
                    assert(pairs_view(fields@.subrange(0, k + 1)) =~= pairs_view(fields@.subrange(0, k as int)).push(
                        (fields@[k as int].0@, fields@[k as int].1@),
                    ));
                    assert(pairs_view(out@) =~= before + pairs_view(fields@.subrange(0, k + 1)));
                    k = k + 1;
                }
                assert(fields@.subrange(0, k as int) =~= fields@);
            },
            None => {},
        }
        i = i + 1;
        assert(items_view(items@.subrange(0, i as int)).drop_last() =~= items_view(pre));
        assert(pairs_view(out@) =~= json_pairs(items_view(items@.subrange(0, i as int))));
    }
    assert(items@.subrange(0, i as int) =~= items@);
    out
}

/// The values, in order, of the fields whose key is `key`.
fn collect_values(pairs: &Vec<(String, String)>, key: &String) -> (r: Vec<String>)
    ensures
        texts(r@) == values_of_key(pairs_view(pairs@), key@),
{
    let mut out: Vec<String> = Vec::new();
    let mut i: usize = 0;
    while i < pairs.len()
        invariant
            i <= pairs@.len(),
            texts(out@) == values_of_key(pairs_view(pairs@).subrange(0, i as int), key@),
        decreases pairs.len() - i,
    {
        let ghost pre = pairs_view(pairs@).subrange(0, i as int);
        let ghost nxt = pairs_view(pairs@).subrange(0, i + 1);
        assert(nxt.drop_last() =~= pre);
        if pairs[i].0 == *key {
            out.push(pairs[i].1.clone());
            assert(texts(out@) =~= values_of_key(nxt, key@));
        } else {
            assert(texts(out@) =~= values_of_key(nxt, key@));
        }
        i = i + 1;
    }
    assert(pairs_view(pairs@).subrange(0, i as int) =~= pairs_view(pairs@));
    out
}

/// Groups the fields of a JSON array's objects into columns: one per key,
/// in sorted key order, each holding that key's values in the order of the
/// objects. Items that are not objects (`None`) add nothing.
pub fn json_columns(items: &[Option<Vec<(String, String)>>]) -> (r: Vec<(String, Vec<String>)>)
    ensures
        are_json_columns(r@, items_view(items@)),
{
    let pairs = flatten_pairs(items);
    let ghost ps = pairs_view(pairs@);
    let mut keys: Vec<String> = Vec::new();
    let mut i: usize = 0;
    assert(strings_view(keys@) =~= Seq::<Seq<char>>::empty());
    while i < pairs.len()
        invariant
            i <= pairs@.len(),
            ps == pairs_view(pairs@),
            is_sorted_set_of(strings_view(keys@), pair_keys(ps).subrange(0, i as int)),
        decreases pairs.len() - i,
    {
        let k = pairs[i].0.clone();
        insert_sorted(&mut keys, k);
        proof {
            let pre = pair_keys(ps).subrange(0, i as int);
            let nxt = pair_keys(ps).subrange(0, i + 1);
            assert(nxt =~= pre.push(ps[i as int].0));
            assert forall|x: Seq<char>| #[trigger] strings_view(keys@).contains(x) <==> nxt.contains(x) by {
                if pre.contains(x) {
                    let q = choose|q: int| 0 <= q < pre.len() && pre[q] == x;
                    assert(nxt[q] == x);
                }
                if nxt.contains(x) {
                    let q = choose|q: int| 0 <= q < nxt.len() && nxt[q] == x;
                    if q < i {
                        assert(pre[q] == x);
                    }
                }
                if x == ps[i as int].0 {
                    assert(nxt[i as int] == x);
                }
            }
        }
        i = i + 1;
    }
    assert(pair_keys(ps).subrange(0, i as int) =~= pair_keys(ps));
    let ghost ks = strings_view(keys@);
    let mut out: Vec<(String, Vec<String>)> = Vec::new();
    let mut j: usize = 0;
    while j < keys.len()
        invariant
            j <= keys@.len(),
            ks == strings_view(keys@),
            ps == pairs_view(pairs@),
            out@.len() == j,
            forall|q: int| 0 <= q < j ==> (#[trigger] out@[q]).0@ == ks[q] && texts(out@[q].1@) == values_of_key(ps, ks[q]),
        decreases keys.len() - j,
    {
        let vals = collect_values(&pairs, &keys[j]);
        let name = keys[j].clone();
        out.push((name, vals));
        j = j + 1;
    }
    assert(column_keys(out@) =~= ks);
    out
}

} // verus!
