//! Sorted sets of strings: the lexicographic order of character sequences
//! (the order of `String`, whose UTF-8 bytes compare as the code points do),
//! and insertion into a strictly increasing vector of strings.

use vstd::prelude::*;
use crate::decimal::chars_of;

verus! {

/// Lexicographic order of character sequences by code point.
pub open spec fn chars_lt(a: Seq<char>, b: Seq<char>) -> bool
    decreases a.len(),
{
    if a.len() == 0 {
        b.len() > 0
    } else if b.len() == 0 {
        false
    } else if a[0] < b[0] {
        true
    } else if a[0] > b[0] {
        false
    } else {
        chars_lt(a.drop_first(), b.drop_first())
    }
}

/// The order is transitive.
pub proof fn lemma_chars_lt_trans(a: Seq<char>, b: Seq<char>, c: Seq<char>)
    requires
        chars_lt(a, b),
        chars_lt(b, c),
    ensures
        chars_lt(a, c),
    decreases a.len(),
{
    if a.len() > 0 && b.len() > 0 && c.len() > 0 && a[0] == b[0] && b[0] == c[0] {
        lemma_chars_lt_trans(a.drop_first(), b.drop_first(), c.drop_first());
    }
}

/// Of two sequences one is less than the other or they are equal, and not both.
pub proof fn lemma_chars_lt_total(a: Seq<char>, b: Seq<char>)
    ensures
        a == b || chars_lt(a, b) || chars_lt(b, a),
        !(chars_lt(a, b) && chars_lt(b, a)),
        !chars_lt(a, a),
    decreases a.len(),
{
    if a.len() == 0 || b.len() == 0 {
        if a.len() == 0 && b.len() == 0 {
            assert(a =~= b);
        }
        if a.len() > 0 {
            lemma_chars_lt_total(a.drop_first(), a.drop_first());
        }
    } else {
        lemma_chars_lt_total(a.drop_first(), b.drop_first());
        if a[0] == b[0] && a.drop_first() == b.drop_first() {
            assert(a.len() == b.len());
            assert forall|i: int| 0 <= i < a.len() implies a[i] == b[i] by {
                if i > 0 {
                    assert(a[i] == a.drop_first()[i - 1]);
                    assert(b[i] == b.drop_first()[i - 1]);
                }
            }
            assert(a =~= b);
        }
    }
}

/// The character sequences of strings.
pub open spec fn strings_view(v: Seq<String>) -> Seq<Seq<char>> {
    Seq::new(v.len(), |i: int| v[i]@)
}

/// Strictly increasing in the lexicographic order.
pub open spec fn sorted_strict(s: Seq<Seq<char>>) -> bool {
    forall|i: int, j: int| 0 <= i < j < s.len() ==> chars_lt(#[trigger] s[i], #[trigger] s[j])
}

/// `strs` holds each of the `texts` once, in increasing order.
pub open spec fn is_sorted_set_of(strs: Seq<Seq<char>>, texts: Seq<Seq<char>>) -> bool {
    &&& sorted_strict(strs)
    &&& forall|t: Seq<char>| #[trigger] strs.contains(t) <==> texts.contains(t)
}

/// A sorted set holds as many strings as there are distinct texts.
pub proof fn lemma_sorted_set_len(strs: Seq<Seq<char>>, texts: Seq<Seq<char>>)
    requires
        is_sorted_set_of(strs, texts),
    ensures
        strs.len() == texts.to_set().len(),
{
    assert(strs.no_duplicates()) by {
        assert forall|i: int, j: int| 0 <= i < strs.len() && 0 <= j < strs.len() && i != j implies strs[i] != strs[j] by {
            lemma_chars_lt_total(strs[i], strs[i]);
            if i < j {
                assert(chars_lt(strs[i], strs[j]));
            } else {
                assert(chars_lt(strs[j], strs[i]));
            }
        }
    }
    strs.unique_seq_to_set();
    assert(strs.to_set() =~= texts.to_set());
}

/// Three-way comparison of two strings: negative, zero or positive.
pub fn compare_strings(a: &String, b: &String) -> (r: i8)
    ensures
        (r == 0) == (a@ == b@),
        (r < 0) == chars_lt(a@, b@),
        (r > 0) == chars_lt(b@, a@),
{
    let x = chars_of(a.as_str());
    let y = chars_of(b.as_str());
    proof {
        lemma_chars_lt_total(x@, y@);
    }
    assert(x@.skip(0) =~= x@);
    assert(y@.skip(0) =~= y@);
    let mut i: usize = 0;
    while i < x.len() && i < y.len() && x[i] == y[i]
        invariant
            i <= x@.len(),
            i <= y@.len(),
            x@.subrange(0, i as int) == y@.subrange(0, i as int),
            chars_lt(x@, y@) == chars_lt(x@.skip(i as int), y@.skip(i as int)),
            chars_lt(y@, x@) == chars_lt(y@.skip(i as int), x@.skip(i as int)),
        decreases x.len() - i,
    {
        proof {
            assert(x@.skip(i as int).drop_first() =~= x@.skip(i + 1));
            assert(y@.skip(i as int).drop_first() =~= y@.skip(i + 1));
            assert(x@.subrange(0, i + 1) =~= x@.subrange(0, i as int).push(x@[i as int]));
            assert(y@.subrange(0, i + 1) =~= y@.subrange(0, i as int).push(y@[i as int]));
        }
        i = i + 1;
    }
    if i == x.len() && i == y.len() {
        assert(x@ =~= x@.subrange(0, i as int));
        assert(y@ =~= y@.subrange(0, i as int));
        0
    } else if i == x.len() {
        assert(x@.skip(i as int).len() == 0);
        proof {
            if x@ == y@ {
                assert(x@.len() == y@.len());
            }
        }
        -1
    } else if i == y.len() {
        assert(y@.skip(i as int).len() == 0);
        proof {
            if x@ == y@ {
                assert(x@.len() == y@.len());
            }
        }
        1
    } else {
        assert(x@.skip(i as int)[0] == x@[i as int]);
        assert(y@.skip(i as int)[0] == y@[i as int]);
        proof {
            if x@ == y@ {
                assert(x@[i as int] == y@[i as int]);
            }
        }
        if x[i] < y[i] {
            -1
        } else {
            1
        }
    }
}

/// Inserts a string into a strictly increasing vector of strings, unless it
/// is already there.
pub fn insert_sorted(out: &mut Vec<String>, x: String)
    requires
        sorted_strict(strings_view(old(out)@)),
    ensures
        sorted_strict(strings_view(final(out)@)),
        forall|t: Seq<char>| #[trigger] strings_view(final(out)@).contains(t) <==> (strings_view(old(out)@).contains(t) || t == x@),
{
    let ghost s = strings_view(out@);
    let mut i: usize = 0;
    while i < out.len() && compare_strings(&out[i], &x) < 0
        invariant
            i <= out@.len(),
            s == strings_view(out@),
            forall|j: int| 0 <= j < i ==> chars_lt(#[trigger] s[j], x@),
        decreases out.len() - i,
    {
        i = i + 1;
    }
    if i < out.len() && compare_strings(&out[i], &x) == 0 {
        assert(s[i as int] == x@);
        assert forall|t: Seq<char>| #[trigger] s.contains(t) <==> (s.contains(t) || t == x@) by {
            if t == x@ {
                assert(s[i as int] == t);
            }
        }
        return;
    }
    let ghost xv = x@;
    proof {
        if i < out@.len() {
            lemma_chars_lt_total(s[i as int], xv);
        }
    }
    out.insert(i, x);
    proof {
        let s2 = strings_view(out@);
        assert(s2 =~= s.insert(i as int, xv));
        assert forall|a: int, b: int| 0 <= a < b < s2.len() implies chars_lt(#[trigger] s2[a], #[trigger] s2[b]) by {
            if b < i {
            } else if b == i {
                assert(s2[a] == s[a]);
            } else if a == i {
                assert(s2[b] == s[b - 1]);
                if b - 1 > i {
                    lemma_chars_lt_trans(xv, s[i as int], s[b - 1]);
                }
            } else if a < i {
                assert(s2[a] == s[a]);
                assert(s2[b] == s[b - 1]);
                assert(chars_lt(s[a], xv));
                lemma_chars_lt_trans(s[a], xv, s[i as int]);
                if b - 1 > i {
                    lemma_chars_lt_trans(s[a], s[i as int], s[b - 1]);
                }
            } else {
                assert(s2[a] == s[a - 1]);
                assert(s2[b] == s[b - 1]);
            }
        }
        assert forall|t: Seq<char>| #[trigger] s2.contains(t) <==> (s.contains(t) || t == xv) by {
            if s2.contains(t) {
                let k = choose|k: int| 0 <= k < s2.len() && s2[k] == t;
                if k < i {
                    assert(s[k] == t);
                } else if k > i {
                    assert(s[k - 1] == t);
                }
            }
            if s.contains(t) {
                let k = choose|k: int| 0 <= k < s.len() && s[k] == t;
                if k < i {
                    assert(s2[k] == t);
                } else {
                    assert(s2[k + 1] == t);
                }
            }
            if t == xv {
                assert(s2[i as int] == t);
            }
        }
    }
}

} // verus!
