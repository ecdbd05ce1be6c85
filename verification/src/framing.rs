//! Length-prefixed blob lists and `u32` arrays, shared by the frame formats.

use vstd::prelude::*;
use crate::bytes::{le32, get32, push_u32, push_all, read_u32, slice_to_vec, lemma_le32_roundtrip};

verus! {

/// The views of a list of byte vectors.
pub open spec fn blobs_view(v: Seq<Vec<u8>>) -> Seq<Seq<u8>> {
    Seq::new(v.len(), |i: int| v[i]@)
}

/// Each blob preceded by its length (4 bytes LE), one after the other.
pub open spec fn lp_bytes(bs: Seq<Seq<u8>>) -> Seq<u8>
    decreases bs.len(),
{
    if bs.len() == 0 {
        Seq::empty()
    } else {
        lp_bytes(bs.drop_last()) + le32(bs.last().len() as u32) + bs.last()
    }
}

/// Reads `n` length-prefixed blobs from `d` at `off`: the blobs and the
/// position after them, or `None` when a length or a blob is truncated.
pub open spec fn parse_lp(d: Seq<u8>, off: int, n: int) -> Option<(Seq<Seq<u8>>, int)>
    decreases n,
{
    if n <= 0 {
        Some((Seq::empty(), off))
    } else {
        match parse_lp(d, off, n - 1) {
            None => None,
            Some(st) => {
                let o = st.1;
                if o + 4 > d.len() {
                    None
                } else {
                    let l = get32(d, o) as int;
                    if o + 4 + l > d.len() {
                        None
                    } else {
                        Some((st.0.push(d.subrange(o + 4, o + 4 + l)), o + 4 + l))
                    }
                }
            },
        }
    }
}

/// Appends each blob preceded by its length (truncated to 32 bits).
pub fn write_lp(out: &mut Vec<u8>, blobs: &[Vec<u8>])
    ensures
        final(out)@ == old(out)@ + lp_bytes(blobs_view(blobs@)),
{
    let ghost start = out@;
    let mut i: usize = 0;
    while i < blobs.len()
        invariant
            i <= blobs.len(),
            out@ == start + lp_bytes(blobs_view(blobs@.subrange(0, i as int))),
        decreases blobs.len() - i,
    {
        let b = &blobs[i];
        push_u32(out, b.len() as u32);
        push_all(out, b.as_slice());
        proof {
            let s1 = blobs_view(blobs@.subrange(0, i + 1));
            assert(s1.drop_last() =~= blobs_view(blobs@.subrange(0, i as int)));
            assert(s1.last() == b@);
        }
        i = i + 1;
    }
    assert(blobs@.subrange(0, blobs@.len() as int) =~= blobs@);
}

proof fn lemma_parse_lp_bounds(d: Seq<u8>, off: int, n: int)
    requires
        0 <= off,
    ensures
        parse_lp(d, off, n) matches Some(st) ==> off <= st.1 <= d.len() || (n <= 0 && st.1 == off),
        parse_lp(d, off, n) matches Some(st) ==> st.0.len() == (if n < 0 { 0 } else { n }),
    decreases n,
{
    if n > 0 {
        lemma_parse_lp_bounds(d, off, n - 1);
    }
}

/// Reads `n` length-prefixed blobs from `d` at `off`.
pub fn read_lp(d: &[u8], off: usize, n: usize) -> (r: Option<(Vec<Vec<u8>>, usize)>)
    requires
        off <= d.len(),
    ensures
        r is Some <==> parse_lp(d@, off as int, n as int) is Some,
        r matches Some(res) ==> parse_lp(d@, off as int, n as int) == Some(
            (blobs_view(res.0@), res.1 as int),
        ),
{
    let mut blobs: Vec<Vec<u8>> = Vec::new();
    let mut o = off;
    let mut k: usize = 0;
    while k < n
        invariant
            k <= n,
            off <= o <= d.len(),
            parse_lp(d@, off as int, k as int) == Some((blobs_view(blobs@), o as int)),
        decreases n - k,
    {
        if d.len() - o < 4 {
            proof {
                lemma_parse_lp_none_stays(d@, off as int, k + 1, n as int);
            }
            return None;
        }
        let l = read_u32(d, o) as usize;
        if d.len() - o - 4 < l {
            proof {
                lemma_parse_lp_none_stays(d@, off as int, k + 1, n as int);
            }
            return None;
        }
        let b = slice_to_vec(d, o + 4, o + 4 + l);
        proof {
            assert(blobs_view(blobs@.push(b)) =~= blobs_view(blobs@).push(b@));
        }
        blobs.push(b);
        o = o + 4 + l;
        k = k + 1;
    }
    Some((blobs, o))
}

proof fn lemma_parse_lp_none_stays(d: Seq<u8>, off: int, k: int, n: int)
    requires
        k <= n,
        parse_lp(d, off, k) is None,
    ensures
        parse_lp(d, off, n) is None,
    decreases n - k,
{
    if k < n {
        lemma_parse_lp_none_stays(d, off, k, n - 1);
    }
}

/// Reading length-prefixed blobs back from their encoding gives the blobs,
/// whatever precedes or follows them, when every length fits 32 bits.
pub proof fn lemma_lp_roundtrip(pre: Seq<u8>, bs: Seq<Seq<u8>>, post: Seq<u8>)
    requires
        forall|i: int| 0 <= i < bs.len() ==> #[trigger] bs[i].len() <= u32::MAX,
    ensures
        parse_lp(pre + lp_bytes(bs) + post, pre.len() as int, bs.len() as int) == Some(
            (bs, (pre.len() + lp_bytes(bs).len()) as int),
        ),
    decreases bs.len(),
{
    if bs.len() > 0 {
        let init = bs.drop_last();
        let last = bs.last();
        let tail = le32(last.len() as u32) + last + post;
        assert(pre + lp_bytes(bs) + post =~= pre + lp_bytes(init) + tail);
        lemma_lp_roundtrip(pre, init, tail);
        let d = pre + lp_bytes(bs) + post;
        let o: int = (pre.len() + lp_bytes(init).len()) as int;
        assert(d.subrange(o, o + 4) =~= le32(last.len() as u32));
        lemma_le32_roundtrip(last.len() as u32, d, o);
        assert(d.subrange(o + 4, o + 4 + last.len()) =~= last);
        assert(init.push(last) =~= bs);
    } else {
        assert(lp_bytes(bs) =~= Seq::<u8>::empty());
    }
}

/// Each `u32` as 4 bytes LE, one after the other.
pub open spec fn u32s_bytes(v: Seq<u32>) -> Seq<u8>
    decreases v.len(),
{
    if v.len() == 0 {
        Seq::empty()
    } else {
        u32s_bytes(v.drop_last()) + le32(v.last())
    }
}

/// Appends each value as 4 bytes LE.
pub fn write_u32s(out: &mut Vec<u8>, v: &[u32])
    ensures
        final(out)@ == old(out)@ + u32s_bytes(v@),
{
    let ghost start = out@;
    let mut i: usize = 0;
    while i < v.len()
        invariant
            i <= v.len(),
            out@ == start + u32s_bytes(v@.subrange(0, i as int)),
        decreases v.len() - i,
    {
        push_u32(out, v[i]);
        proof {
            assert(v@.subrange(0, i + 1).drop_last() =~= v@.subrange(0, i as int));
        }
        i = i + 1;
    }
    assert(v@.subrange(0, v@.len() as int) =~= v@);
}

/// Reads `n` values of 4 bytes LE from `d` at `off`; the caller checked the bytes are there.
pub fn read_u32s(d: &[u8], off: usize, n: usize) -> (r: Vec<u32>)
    requires
        off + 4 * n <= d.len(),
    ensures
        r@ == Seq::new(n as nat, |i: int| get32(d@, off + 4 * i)),
{
    let mut r: Vec<u32> = Vec::new();
    let mut i: usize = 0;
    while i < n
        invariant
            i <= n,
            off + 4 * n <= d.len(),
            r@ == Seq::new(i as nat, |j: int| get32(d@, off + 4 * j)),
        decreases n - i,
    {
        r.push(read_u32(d, off + 4 * i));
        i = i + 1;
        assert(r@ =~= Seq::new(i as nat, |j: int| get32(d@, off + 4 * j)));
    }
    r
}

/// Reading the encoded values back gives the values.
pub proof fn lemma_u32s_roundtrip(pre: Seq<u8>, v: Seq<u32>, post: Seq<u8>)
    ensures
        u32s_bytes(v).len() == 4 * v.len(),
        Seq::new(v.len(), |i: int| get32(pre + u32s_bytes(v) + post, pre.len() + 4 * i)) == v,
    decreases v.len(),
{
    if v.len() > 0 {
        let init = v.drop_last();
        let tail = le32(v.last()) + post;
        assert(pre + u32s_bytes(v) + post =~= pre + u32s_bytes(init) + tail);
        lemma_u32s_roundtrip(pre, init, tail);
        let d = pre + u32s_bytes(v) + post;
        let o: int = (pre.len() + 4 * init.len()) as int;
        assert(d.subrange(o, o + 4) =~= le32(v.last()));
        lemma_le32_roundtrip(v.last(), d, o);
        let got = Seq::new(v.len(), |i: int| get32(d, pre.len() + 4 * i));
        let got0 = Seq::new(init.len(), |i: int| get32(d, pre.len() + 4 * i));
        assert(got0 == init);
        assert forall|i: int| 0 <= i < v.len() implies #[trigger] got[i] == v[i] by {
            if i < init.len() {
                assert(got[i] == got0[i]);
            }
        }
        assert(got =~= v);
    } else {
        assert(Seq::new(v.len(), |i: int| get32(pre + u32s_bytes(v) + post, pre.len() + 4 * i)) =~= v);
    }
}

} // verus!
