//! Element text extraction from XML: the text of each `<tag>text</tag>`
//! element, grouped by tag name in tag order. A light scanner, not a parser.

use vstd::prelude::*;
use vstd::utf8::encode_utf8;
use crate::archive::{lossy_decode, lossy_string};
use crate::bytes::slice_to_vec;
use crate::framing::blobs_view;
use crate::text::{trim_spec, trim_bounds};

verus! {

/// Byte-wise lexicographic order (the order of `String`s).
pub open spec fn lex_lt(a: Seq<u8>, b: Seq<u8>) -> bool
    decreases a.len(),
{
    if a.len() == 0 {
        b.len() > 0
    } else if b.len() == 0 {
        false
    } else if a[0] < b[0] {
        true
    } else if a[0] > b[0] {
        false
    } else {
        lex_lt(a.drop_first(), b.drop_first())
    }
}

/// The lexicographic order is transitive.
pub proof fn lemma_lex_trans(a: Seq<u8>, b: Seq<u8>, c: Seq<u8>)
    requires
        lex_lt(a, b),
        lex_lt(b, c),
    ensures
        lex_lt(a, c),
    decreases a.len(),
{
    if a.len() > 0 && b.len() > 0 && c.len() > 0 && a[0] == b[0] && b[0] == c[0] {
        lemma_lex_trans(a.drop_first(), b.drop_first(), c.drop_first());
    }
}

/// Of two byte strings, one is less than the other or they are equal, and not both.
pub proof fn lemma_lex_total(a: Seq<u8>, b: Seq<u8>)
    ensures
        a == b || lex_lt(a, b) || lex_lt(b, a),
        !(lex_lt(a, b) && lex_lt(b, a)),
        !lex_lt(a, a),
    decreases a.len(),
{
    if a.len() == 0 || b.len() == 0 {
        if a.len() == 0 && b.len() == 0 {
            assert(a =~= b);
        }
        if a.len() > 0 {
            lemma_lex_total(a.drop_first(), a.drop_first());
        }
    } else {
        lemma_lex_total(a.drop_first(), b.drop_first());
        if a[0] == b[0] && a.drop_first() == b.drop_first() {
            assert(a.len() == b.len());
            assert forall|i: int| 0 <= i < a.len() implies a[i] == b[i] by {
                if i > 0 {
                    assert(a[i] == a.drop_first()[i - 1]);
                    assert(b[i] == b.drop_first()[i - 1]);
                }
            }
            assert(a =~= b);
        }
    }
}

/// The first position from `i` holding `>`, a space or `/`, or the length.
pub open spec fn find_tag_end(b: Seq<u8>, i: int) -> int
    decreases b.len() - i,
{
    if i < 0 || i >= b.len() {
        b.len() as int
    } else if b[i] == 0x3Eu8 || b[i] == 0x20u8 || b[i] == 0x2Fu8 {
        i
    } else {
        find_tag_end(b, i + 1)
    }
}

/// The first position from `i` holding `>`.
pub open spec fn find_gt(b: Seq<u8>, i: int) -> Option<int>
    decreases b.len() - i,
{
    if i < 0 || i >= b.len() {
        None
    } else if b[i] == 0x3Eu8 {
        Some(i)
    } else {
        find_gt(b, i + 1)
    }
}

/// The first position from `i` where `pat` occurs.
pub open spec fn find_pat(b: Seq<u8>, pat: Seq<u8>, i: int) -> Option<int>
    decreases b.len() - i,
{
    if i < 0 || i + pat.len() > b.len() {
        None
    } else if b.subrange(i, i + pat.len()) == pat {
        Some(i)
    } else if i >= b.len() {
        None
    } else {
        find_pat(b, pat, i + 1)
    }
}

/// The closing tag `</tag>`.
pub open spec fn close_tag(tag: Seq<u8>) -> Seq<u8> {
    seq![0x3Cu8, 0x2Fu8] + tag + seq![0x3Eu8]
}

/// One step of the scanner at `pos`: the element found there, if any, and where
/// scanning goes on.
pub open spec fn xml_step(b: Seq<u8>, pos: int) -> (Option<(Seq<u8>, Seq<u8>)>, int) {
    if 0 <= pos && pos + 1 < b.len() && b[pos] == 0x3Cu8 && b[pos + 1] != 0x2Fu8 && b[pos + 1] != 0x3Fu8 && b[pos + 1] != 0x21u8 {
        let ts = pos + 1;
        let tag = b.subrange(ts, find_tag_end(b, ts));
        if tag.len() == 0 {
            (None, pos + 1)
        } else {
            match find_gt(b, pos) {
                None => (None, pos + 1),
                Some(cb) => {
                    if b[cb - 1] == 0x2Fu8 {
                        (None, cb + 1)
                    } else {
                        let cs = cb + 1;
                        match find_pat(b, close_tag(tag), cs) {
                            None => (None, pos + 1),
                            Some(ct) => {
                                let content = trim_spec(b.subrange(cs, ct));
                                if content.len() > 0 && content[0] != 0x3Cu8 {
                                    (Some((tag, content)), ct + close_tag(tag).len())
                                } else {
                                    (None, cs)
                                }
                            },
                        }
                    }
                },
            }
        }
    } else {
        (None, pos + 1)
    }
}

/// The elements with text found from `pos` on, in document order: `(tag, text)`.
pub open spec fn xml_events(b: Seq<u8>, pos: int) -> Seq<(Seq<u8>, Seq<u8>)>
    decreases b.len() - pos,
{
    if pos < 0 || pos >= b.len() {
        Seq::empty()
    } else {
        let st = xml_step(b, pos);
        if st.1 <= pos || st.1 > b.len() {
            Seq::empty()
        } else {
            match st.0 {
                Some(e) => seq![e] + xml_events(b, st.1),
                None => xml_events(b, st.1),
            }
        }
    }
}

/// The texts of the elements named `tag`, in order.
pub open spec fn values_of(ev: Seq<(Seq<u8>, Seq<u8>)>, tag: Seq<u8>) -> Seq<Seq<u8>>
    decreases ev.len(),
{
    if ev.len() == 0 {
        Seq::empty()
    } else if ev.last().0 == tag {
        values_of(ev.drop_last(), tag).push(ev.last().1)
    } else {
        values_of(ev.drop_last(), tag)
    }
}

/// `g` groups the elements `ev` by tag: tags strictly increasing, each with
/// the texts of its elements, every element's tag present.
pub open spec fn is_grouping(ev: Seq<(Seq<u8>, Seq<u8>)>, g: Seq<(Seq<u8>, Seq<Seq<u8>>)>) -> bool {
    &&& forall|i: int, j: int| 0 <= i < j < g.len() ==> lex_lt(#[trigger] g[i].0, #[trigger] g[j].0)
    &&& forall|i: int| 0 <= i < g.len() ==> (#[trigger] g[i]).1 == values_of(ev, g[i].0) && g[i].1.len() > 0
    &&& forall|k: int| 0 <= k < ev.len() ==> #[trigger] has_tag(g, ev[k].0)
}

/// Whether one of the groups has the tag `t`.
pub open spec fn has_tag(g: Seq<(Seq<u8>, Seq<Seq<u8>>)>, t: Seq<u8>) -> bool {
    exists|i: int| 0 <= i < g.len() && (#[trigger] g[i]).0 == t
}

/// The groups as text.
pub open spec fn columns_as_text(g: Seq<(Seq<u8>, Seq<Seq<u8>>)>) -> Seq<(Seq<char>, Seq<Seq<char>>)> {
    Seq::new(g.len(), |i: int| (lossy_decode(g[i].0), Seq::new(g[i].1.len(), |j: int| lossy_decode(g[i].1[j]))))
}

/// The view of the extracted columns.
pub open spec fn columns_view(r: Seq<(String, Vec<String>)>) -> Seq<(Seq<char>, Seq<Seq<char>>)> {
    Seq::new(r.len(), |i: int| (r[i].0@, Seq::new(r[i].1@.len(), |j: int| r[i].1@[j]@)))
}

/// The view of byte-level groups.
pub open spec fn groups_view(c: Seq<(Vec<u8>, Vec<Vec<u8>>)>) -> Seq<(Seq<u8>, Seq<Seq<u8>>)> {
    Seq::new(c.len(), |i: int| (c[i].0@, blobs_view(c[i].1@)))
}

/// Byte-wise three-way comparison: negative, zero or positive.
fn lex_order(a: &[u8], b: &[u8]) -> (r: i8)
    ensures
        (r == 0) == (a@ == b@),
        (r < 0) == lex_lt(a@, b@),
        (r > 0) == lex_lt(b@, a@),
{
    proof {
        lemma_lex_total(a@, b@);
    }
    assert(a@.skip(0) =~= a@);
    assert(b@.skip(0) =~= b@);
    let mut i: usize = 0;
    while i < a.len() && i < b.len() && a[i] == b[i]
        invariant
            i <= a.len(),
            i <= b.len(),
            a@.subrange(0, i as int) == b@.subrange(0, i as int),
            lex_lt(a@, b@) == lex_lt(a@.skip(i as int), b@.skip(i as int)),
            lex_lt(b@, a@) == lex_lt(b@.skip(i as int), a@.skip(i as int)),
        decreases a.len() - i,
    {
        proof {
            assert(a@.skip(i as int).drop_first() =~= a@.skip(i + 1));
            assert(b@.skip(i as int).drop_first() =~= b@.skip(i + 1));
            assert(a@.subrange(0, i + 1) =~= a@.subrange(0, i as int).push(a@[i as int]));
            assert(b@.subrange(0, i + 1) =~= b@.subrange(0, i as int).push(b@[i as int]));
        }
        i = i + 1;
    }
    if i == a.len() && i == b.len() {
        assert(a@ =~= a@.subrange(0, i as int));
        assert(b@ =~= b@.subrange(0, i as int));
        0
    } else if i == a.len() {
        assert(a@.skip(i as int).len() == 0);
        proof {
            if a@ == b@ {
                assert(a@.len() == b@.len());
            }
        }
        -1
    } else if i == b.len() {
        assert(b@.skip(i as int).len() == 0);
        proof {
            if a@ == b@ {
                assert(a@.len() == b@.len());
            }
        }
        1
    } else {
        assert(a@.skip(i as int)[0] == a@[i as int]);
        assert(b@.skip(i as int)[0] == b@[i as int]);
        proof {
            if a@ == b@ {
                assert(a@[i as int] == b@[i as int]);
            }
        }
        if a[i] < b[i] {
            -1
        } else {
            1
        }
    }
}

proof fn lemma_values_nonempty_has_event(ev: Seq<(Seq<u8>, Seq<u8>)>, tag: Seq<u8>)
    requires
        values_of(ev, tag).len() > 0,
    ensures
        exists|k: int| 0 <= k < ev.len() && (#[trigger] ev[k]).0 == tag,
    decreases ev.len(),
{
    if ev.last().0 == tag {
        assert(ev[ev.len() - 1].0 == tag);
    } else {
        lemma_values_nonempty_has_event(ev.drop_last(), tag);
        let k = choose|k: int| 0 <= k < ev.drop_last().len() && (#[trigger] ev.drop_last()[k]).0 == tag;
        assert(ev[k] == ev.drop_last()[k]);
    }
}

/// Adds one element to the grouping.
fn add_event(cols: &mut Vec<(Vec<u8>, Vec<Vec<u8>>)>, tag: Vec<u8>, content: Vec<u8>, Ghost(ev): Ghost<Seq<(Seq<u8>, Seq<u8>)>>)
    requires
        is_grouping(ev, groups_view(old(cols)@)),
    ensures
        is_grouping(ev.push((tag@, content@)), groups_view(final(cols)@)),
{
    let ghost g = groups_view(cols@);
    let ghost ev2 = ev.push((tag@, content@));
    assert forall|x: Seq<u8>| #[trigger] values_of(ev2, x) == (if x == tag@ { values_of(ev, x).push(content@) } else { values_of(ev, x) }) by {
        assert(ev2.drop_last() =~= ev);
    }
    let mut i: usize = 0;
    while i < cols.len() && lex_order(cols[i].0.as_slice(), tag.as_slice()) < 0
        invariant
            i <= cols@.len(),
            g == groups_view(cols@),
            forall|j: int| 0 <= j < i ==> lex_lt(#[trigger] g[j].0, tag@),
        decreases cols.len() - i,
    {
        i = i + 1;
    }
    if i < cols.len() && lex_order(cols[i].0.as_slice(), tag.as_slice()) == 0 {
        let mut entry = cols.remove(i);
        let ghost old_vals = entry.1@;
        let ghost cv = content@;
        entry.1.push(content);
        assert(blobs_view(entry.1@) =~= blobs_view(old_vals).push(cv));
        cols.insert(i, entry);
        proof {
            let g2 = groups_view(cols@);
            assert forall|k: int| 0 <= k < g2.len() implies (#[trigger] g2[k]) == (if k == i { (tag@, g[k].1.push(content@)) } else { g[k] }) by {
                if k < i {
                    assert(cols@[k] == old(cols)@[k]);
                } else if k > i {
                    assert(cols@[k] == old(cols)@[k]);
                }
            }
            assert(g2.len() == g.len());
            assert(g[i as int].0 == tag@);
            assert forall|k: int| 0 <= k < g2.len() implies (#[trigger] g2[k]).1 == values_of(ev2, g2[k].0) && g2[k].1.len() > 0 by {
                if k != i {
                    lemma_lex_total(g[k].0, g[k].0);
                    if k < i {
                        assert(lex_lt(g[k].0, g[i as int].0));
                    } else {
                        assert(lex_lt(g[i as int].0, g[k].0));
                    }
                }
            }
            assert forall|k: int| 0 <= k < ev2.len() implies #[trigger] has_tag(g2, ev2[k].0) by {
                if k < ev.len() {
                    assert(ev2[k] == ev[k]);
                    assert(has_tag(g, ev[k].0));
                    let j = choose|j: int| 0 <= j < g.len() && (#[trigger] g[j]).0 == ev[k].0;
                    assert(g2[j].0 == ev2[k].0);
                } else {
                    assert(g2[i as int].0 == ev2[k].0);
                }
            }
            assert forall|a: int, b: int| 0 <= a < b < g2.len() implies lex_lt(#[trigger] g2[a].0, #[trigger] g2[b].0) by {
                assert(g2[a].0 == g[a].0);
                assert(g2[b].0 == g[b].0);
            }
            assert(is_grouping(ev2, g2));
        }
    } else {
        let mut vals: Vec<Vec<u8>> = Vec::new();
        vals.push(content);
        proof {
            if i < cols@.len() {
                lemma_lex_total(g[i as int].0, tag@);
            }
            if values_of(ev, tag@).len() > 0 {
                lemma_values_nonempty_has_event(ev, tag@);
                let k = choose|k: int| 0 <= k < ev.len() && (#[trigger] ev[k]).0 == tag@;
                assert(has_tag(g, ev[k].0));
                let j = choose|j: int| 0 <= j < g.len() && (#[trigger] g[j]).0 == ev[k].0;
                if j < i {
                    lemma_lex_total(tag@, tag@);
                } else if j > i {
                    lemma_lex_trans(tag@, g[i as int].0, g[j].0);
                    lemma_lex_total(tag@, tag@);
                }
                assert(false);
            }
        }
        cols.insert(i, (tag, vals));
        proof {
            let g2 = groups_view(cols@);
            assert(blobs_view(vals@) =~= seq![content@]);
            assert(g2 =~= g.insert(i as int, (tag@, seq![content@])));
            assert forall|a: int, b: int| 0 <= a < b < g2.len() implies lex_lt(#[trigger] g2[a].0, #[trigger] g2[b].0) by {
                if b < i {
                } else if b == i {
                    assert(g2[a] == g[a]);
                } else if a == i {
                    assert(g2[b] == g[b - 1]);
                    if b - 1 > i {
                        lemma_lex_trans(tag@, g[i as int].0, g[b - 1].0);
                    }
                } else if a < i {
                    assert(g2[a] == g[a]);
                    assert(g2[b] == g[b - 1]);
                    if b - 1 >= i {
                        assert(lex_lt(g[a].0, tag@));
                        lemma_lex_trans(g[a].0, tag@, g[i as int].0);
                        if b - 1 > i {
                            lemma_lex_trans(g[a].0, g[i as int].0, g[b - 1].0);
                        }
                    }
                } else {
                    assert(g2[a] == g[a - 1]);
                    assert(g2[b] == g[b - 1]);
                }
            }
            assert forall|k: int| 0 <= k < g2.len() implies (#[trigger] g2[k]).1 == values_of(ev2, g2[k].0) && g2[k].1.len() > 0 by {
                if k < i {
                    assert(g2[k] == g[k]);
                    lemma_lex_total(g[k].0, tag@);
                } else if k > i {
                    assert(g2[k] == g[k - 1]);
                    if k - 1 > i {
                        lemma_lex_trans(tag@, g[i as int].0, g[k - 1].0);
                    }
                    lemma_lex_total(tag@, g[k - 1].0);
                } else {
                    assert(values_of(ev, tag@).len() == 0);
                    assert(values_of(ev2, tag@) =~= seq![content@]);
                }
            }
            assert forall|k: int| 0 <= k < ev2.len() implies #[trigger] has_tag(g2, ev2[k].0) by {
                if k < ev.len() {
                    assert(ev2[k] == ev[k]);
                    assert(has_tag(g, ev[k].0));
                    let j = choose|j: int| 0 <= j < g.len() && (#[trigger] g[j]).0 == ev[k].0;
                    if j < i {
                        assert(g2[j] == g[j]);
                        assert(g2[j].0 == ev2[k].0);
                    } else {
                        assert(g2[j + 1] == g[j]);
                        assert(g2[j + 1].0 == ev2[k].0);
                    }
                } else {
                    assert(g2[i as int].0 == ev2[k].0);
                }
            }
            assert(is_grouping(ev2, g2));
        }
    }
}


fn find_tag_end_exec(b: &[u8], i: usize) -> (r: usize)
    requires
        i <= b.len(),
    ensures
        r == find_tag_end(b@, i as int),
        i <= r <= b.len(),
{
    let mut j = i;
    while j < b.len() && !(b[j] == 0x3Eu8 || b[j] == 0x20u8 || b[j] == 0x2Fu8)
        invariant
            i <= j <= b.len(),
            find_tag_end(b@, i as int) == find_tag_end(b@, j as int),
        decreases b.len() - j,
    {
        j = j + 1;
    }
    j
}

fn find_gt_exec(b: &[u8], i: usize) -> (r: Option<usize>)
    requires
        i <= b.len(),
    ensures
        r matches Some(j) ==> find_gt(b@, i as int) == Some(j as int) && i <= j < b.len() && b@[j as int] == 0x3Eu8,
        r is None ==> find_gt(b@, i as int) is None,
{
    let mut j = i;
    while j < b.len()
        invariant
            i <= j <= b.len(),
            find_gt(b@, i as int) == find_gt(b@, j as int),
        decreases b.len() - j,
    {
        if b[j] == 0x3Eu8 {
            return Some(j);
        }
        j = j + 1;
    }
    None
}

fn find_pat_exec(b: &[u8], pat: &[u8], i: usize) -> (r: Option<usize>)
    requires
        i <= b.len(),
    ensures
        r matches Some(j) ==> find_pat(b@, pat@, i as int) == Some(j as int) && i <= j && j + pat@.len() <= b.len(),
        r is None ==> find_pat(b@, pat@, i as int) is None,
{
    let mut j = i;
    while pat.len() <= b.len() - j
        invariant
            i <= j <= b.len(),
            find_pat(b@, pat@, i as int) == find_pat(b@, pat@, j as int),
        decreases b.len() - j,
    {
        let mut m: usize = 0;
        while m < pat.len() && b[j + m] == pat[m]
            invariant
                m <= pat.len(),
                j + pat.len() <= b.len(),
                forall|q: int| 0 <= q < m ==> b@[j + q] == pat@[q],
            decreases pat.len() - m,
        {
            m = m + 1;
        }
        if m == pat.len() {
            assert(b@.subrange(j as int, j + pat@.len()) =~= pat@);
            return Some(j);
        }
        assert(b@.subrange(j as int, j + pat@.len())[m as int] != pat@[m as int]);
        if j >= b.len() {
            return None;
        }
        j = j + 1;
    }
    None
}

/// One scanner step at `pos`: the element found there, if any, and where
/// scanning goes on (always further on).
fn xml_step_exec(b: &[u8], pos: usize) -> (r: (Option<(Vec<u8>, Vec<u8>)>, usize))
    requires
        pos < b.len(),
    ensures
        xml_step(b@, pos as int) == (match r.0 {
            Some(e) => Some((e.0@, e.1@)),
            None => None,
        }, r.1 as int),
        pos < r.1 <= b.len(),
{
    if pos + 1 < b.len() && b[pos] == 0x3Cu8 && b[pos + 1] != 0x2Fu8 && b[pos + 1] != 0x3Fu8 && b[pos + 1] != 0x21u8 {
        let ts = pos + 1;
        let te = find_tag_end_exec(b, ts);
        if te == ts {
            return (None, pos + 1);
        }
        let tag = slice_to_vec(b, ts, te);
        match find_gt_exec(b, pos) {
            None => (None, pos + 1),
            Some(cb) => {
                assert(cb != pos);
                if b[cb - 1] == 0x2Fu8 {
                    (None, cb + 1)
                } else {
                    let cs = cb + 1;
                    let mut close: Vec<u8> = Vec::new();
                    close.push(0x3Cu8);
                    close.push(0x2Fu8);
                    crate::bytes::push_all(&mut close, tag.as_slice());
                    close.push(0x3Eu8);
                    assert(close@ =~= close_tag(tag@));
                    match find_pat_exec(b, close.as_slice(), cs) {
                        None => (None, pos + 1),
                        Some(ct) => {
                            let (s, e) = trim_bounds(b, cs, ct);
                            let ghost content = b@.subrange(s as int, e as int);
                            if e > s && b[s] != 0x3Cu8 {
                                assert(content[0] == b@[s as int]);
                                let c = slice_to_vec(b, s, e);
                                (Some((tag, c)), ct + close.len())
                            } else {
                                proof {
                                    if e > s {
                                        assert(content[0] == b@[s as int]);
                                    }
                                }
                                (None, cs)
                            }
                        },
                    }
                }
            },
        }
    } else {
        (None, pos + 1)
    }
}

/// Groups the text of `<tag>text</tag>` elements of `b` by tag, in tag order.
pub fn extract_element_groups(b: &[u8]) -> (r: Vec<(Vec<u8>, Vec<Vec<u8>>)>)
    ensures
        is_grouping(xml_events(b@, 0), groups_view(r@)),
{
    let mut cols: Vec<(Vec<u8>, Vec<Vec<u8>>)> = Vec::new();
    let ghost mut done: Seq<(Seq<u8>, Seq<u8>)> = Seq::empty();
    assert(is_grouping(done, groups_view(cols@)));
    let mut pos: usize = 0;
    while pos < b.len()
        invariant
            pos <= b.len(),
            xml_events(b@, 0) == done + xml_events(b@, pos as int),
            is_grouping(done, groups_view(cols@)),
        decreases b.len() - pos,
    {
        let (e, next) = xml_step_exec(b, pos);
        match e {
            Some((t, c)) => {
                let ghost ev = (t@, c@);
                proof {
                    assert(xml_events(b@, pos as int) == seq![ev] + xml_events(b@, next as int));
                    assert(done + (seq![ev] + xml_events(b@, next as int)) =~= done.push(ev) + xml_events(b@, next as int));
                }
                add_event(&mut cols, t, c, Ghost(done));
                proof {
                    done = done.push(ev);
                }
            },
            None => {
                assert(xml_events(b@, pos as int) == xml_events(b@, next as int));
            },
        }
        pos = next;
    }
    assert(done + xml_events(b@, pos as int) =~= done);
    cols
}

/// Extracts element text content grouped by tag name, tags in order.
pub fn extract_element_columns(text: &str) -> (r: Vec<(String, Vec<String>)>)
    ensures
        exists|g: Seq<(Seq<u8>, Seq<Seq<u8>>)>| #[trigger] is_grouping(xml_events(encode_utf8(text@), 0), g)
            && columns_view(r@) == columns_as_text(g),
{
    let b = text.as_bytes();
    let groups = extract_element_groups(b);
    let ghost g = groups_view(groups@);
    let mut out: Vec<(String, Vec<String>)> = Vec::new();
    let mut i: usize = 0;
    while i < groups.len()
        invariant
            i <= groups@.len(),
            g == groups_view(groups@),
            out@.len() == i,
            forall|k: int| 0 <= k < i ==> (#[trigger] columns_view(out@)[k]) == columns_as_text(g)[k],
        decreases groups.len() - i,
    {
        let tag = lossy_string(groups[i].0.as_slice());
        let mut vals: Vec<String> = Vec::new();
        let mut j: usize = 0;
        while j < groups[i].1.len()
            invariant
                i < groups@.len(),
                j <= groups@[i as int].1@.len(),
                g == groups_view(groups@),
                vals@.len() == j,
                forall|m: int| 0 <= m < j ==> (#[trigger] vals@[m])@ == lossy_decode(g[i as int].1[m]),
            decreases groups@[i as int].1@.len() - j,
        {
            let v = lossy_string(groups[i].1[j].as_slice());
            vals.push(v);
            j = j + 1;
        }
        let ghost before = out@;
        out.push((tag, vals));
        proof {
            assert(Seq::new(vals@.len(), |m: int| vals@[m]@) =~= Seq::new(g[i as int].1.len(), |m: int| lossy_decode(g[i as int].1[m])));
            assert forall|k: int| 0 <= k < i + 1 implies (#[trigger] columns_view(out@)[k]) == columns_as_text(g)[k] by {
                if k < i {
                    assert(out@[k] == before[k]);
                    assert(columns_view(before)[k] == columns_as_text(g)[k]);
                }
            }
        }
        i = i + 1;
    }
    assert(columns_view(out@) =~= columns_as_text(g));
    assert(is_grouping(xml_events(encode_utf8(text@), 0), g));
    out
}

} // verus!
