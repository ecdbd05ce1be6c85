//! Transform-DAG descriptors, named profiles and the profile cache.
//!
//! A descriptor records the chain of transforms applied to a block and each
//! step's metadata: `count (1) | transform ids (count) | [meta length (2 LE) + meta]*`.

use vstd::prelude::*;
use crate::bytes::{le16, get16, push_u16, push_all, read_u16, slice_to_vec, lemma_le16_roundtrip};
use crate::error::CpacError;
use crate::framing::blobs_view;

verus! {

/// A named compression profile: an ordered chain of transform names.
#[derive(Clone, Debug)]
pub struct Profile {
    /// Profile name (such as "generic", "csv", "json").
    pub name: String,
    /// Ordered list of transform names in the chain.
    pub transforms: Vec<String>,
    /// What this profile is meant for.
    pub description: String,
}

/// The view of a transform chain: each step's id and metadata bytes.
pub open spec fn chain_view(c: Seq<(u8, Vec<u8>)>) -> Seq<(u8, Seq<u8>)> {
    Seq::new(c.len(), |i: int| (c[i].0, c[i].1@))
}

/// The transform ids of a chain.
pub open spec fn chain_ids(c: Seq<(u8, Seq<u8>)>) -> Seq<u8> {
    Seq::new(c.len(), |i: int| c[i].0)
}

/// The metadata of a chain, step by step.
pub open spec fn chain_metas(c: Seq<(u8, Seq<u8>)>) -> Seq<Seq<u8>> {
    Seq::new(c.len(), |i: int| c[i].1)
}

/// Each blob preceded by its length as 2 bytes LE (truncated to 16 bits).
pub open spec fn lp16_bytes(bs: Seq<Seq<u8>>) -> Seq<u8>
    decreases bs.len(),
{
    if bs.len() == 0 {
        Seq::empty()
    } else {
        lp16_bytes(bs.drop_last()) + le16((bs.last().len() % 0x10000) as u16) + bs.last()
    }
}

/// The descriptor bytes of a chain (its length truncated to 8 bits).
pub open spec fn dag_descriptor_bytes(c: Seq<(u8, Seq<u8>)>) -> Seq<u8> {
    seq![(c.len() % 0x100) as u8] + chain_ids(c) + lp16_bytes(chain_metas(c))
}

/// Reads `n` blobs each preceded by a 2-byte length from `d` at `off`.
pub open spec fn parse_lp16(d: Seq<u8>, off: int, n: int) -> Option<(Seq<Seq<u8>>, int)>
    decreases n,
{
    if n <= 0 {
        Some((Seq::empty(), off))
    } else {
        match parse_lp16(d, off, n - 1) {
            None => None,
            Some(st) => {
                let o = st.1;
                if o + 2 > d.len() {
                    None
                } else {
                    let l = get16(d, o) as int;
                    if o + 2 + l > d.len() {
                        None
                    } else {
                        Some((st.0.push(d.subrange(o + 2, o + 2 + l)), o + 2 + l))
                    }
                }
            },
        }
    }
}

/// A descriptor's transform ids, per-step metadata and length in bytes, or
/// `None` when it is empty or truncated. Bytes after it are not read.
pub open spec fn parse_dag_descriptor(d: Seq<u8>) -> Option<(Seq<u8>, Seq<Seq<u8>>, int)> {
    if d.len() == 0 {
        None
    } else {
        let count = d[0] as int;
        if 1 + count > d.len() {
            None
        } else {
            match parse_lp16(d, 1 + count, count) {
                None => None,
                Some((metas, end)) => Some((d.subrange(1, 1 + count), metas, end)),
            }
        }
    }
}

/// Serializes a DAG descriptor: the step count, the transform ids, then each
/// step's metadata preceded by its length.
pub fn serialize_dag_descriptor(meta_chain: &[(u8, Vec<u8>)]) -> (r: Vec<u8>)
    ensures
        r@ == dag_descriptor_bytes(chain_view(meta_chain@)),
{
    let ghost c = chain_view(meta_chain@);
    let mut out: Vec<u8> = Vec::new();
    out.push((meta_chain.len() % 256) as u8);
    let mut i: usize = 0;
    while i < meta_chain.len()
        invariant
            i <= meta_chain.len(),
            c == chain_view(meta_chain@),
            out@ == seq![(meta_chain@.len() % 0x100) as u8] + chain_ids(c).subrange(0, i as int),
        decreases meta_chain.len() - i,
    {
        out.push(meta_chain[i].0);
        i = i + 1;
        assert(chain_ids(c).subrange(0, i as int) =~= chain_ids(c).subrange(0, i - 1).push(c[i - 1].0));
    }
    assert(chain_ids(c).subrange(0, meta_chain@.len() as int) =~= chain_ids(c));
    let ghost head = out@;
    let mut j: usize = 0;
    while j < meta_chain.len()
        invariant
            j <= meta_chain.len(),
            c == chain_view(meta_chain@),
            out@ == head + lp16_bytes(chain_metas(c).subrange(0, j as int)),
        decreases meta_chain.len() - j,
    {
        let m = &meta_chain[j].1;
        push_u16(&mut out, (m.len() % 65536) as u16);
        push_all(&mut out, m.as_slice());
        proof {
            let s1 = chain_metas(c).subrange(0, j + 1);
            assert(s1.drop_last() =~= chain_metas(c).subrange(0, j as int));
            assert(s1.last() == m@);
        }
        j = j + 1;
    }
    assert(chain_metas(c).subrange(0, meta_chain@.len() as int) =~= chain_metas(c));
    out
}

proof fn lemma_parse_lp16_none_stays(d: Seq<u8>, off: int, k: int, n: int)
    requires
        k <= n,
        parse_lp16(d, off, k) is None,
    ensures
        parse_lp16(d, off, n) is None,
    decreases n - k,
{
    if k < n {
        lemma_parse_lp16_none_stays(d, off, k, n - 1);
    }
}

/// Deserializes a DAG descriptor.
///
/// Returns `(transform_ids, metadata_per_step, bytes_consumed)`.
pub fn deserialize_dag_descriptor(data: &[u8]) -> (r: Result<(Vec<u8>, Vec<Vec<u8>>, usize), CpacError>)
    ensures
        r is Ok <==> parse_dag_descriptor(data@) is Some,
        r matches Ok((ids, metas, used)) ==> parse_dag_descriptor(data@) == Some((ids@, blobs_view(metas@), used as int)),
        r matches Err(e) ==> e is Transform,
{
    if data.len() == 0 {
        return Err(CpacError::Transform("empty DAG descriptor".to_string()));
    }
    let count = data[0] as usize;
    if data.len() - 1 < count {
        return Err(CpacError::Transform("truncated DAG descriptor".to_string()));
    }
    let ids = slice_to_vec(data, 1, 1 + count);
    let mut metas: Vec<Vec<u8>> = Vec::new();
    let mut o: usize = 1 + count;
    let mut k: usize = 0;
    while k < count
        invariant
            k <= count,
            1 + count <= o <= data.len(),
            count == data@[0],
            parse_lp16(data@, 1 + count, k as int) == Some((blobs_view(metas@), o as int)),
        decreases count - k,
    {
        if data.len() - o < 2 {
            proof {
                lemma_parse_lp16_none_stays(data@, 1 + count, k + 1, count as int);
            }
            return Err(CpacError::Transform("truncated DAG descriptor metadata".to_string()));
        }
        let l = read_u16(data, o) as usize;
        if data.len() - o - 2 < l {
            proof {
                lemma_parse_lp16_none_stays(data@, 1 + count, k + 1, count as int);
            }
            return Err(CpacError::Transform("truncated DAG descriptor metadata payload".to_string()));
        }
        let b = slice_to_vec(data, o + 2, o + 2 + l);
        proof {
            assert(blobs_view(metas@.push(b)) =~= blobs_view(metas@).push(b@));
        }
        metas.push(b);
        o = o + 2 + l;
        k = k + 1;
    }
    Ok((ids, metas, o))
}

/// Reading 2-byte-length-prefixed blobs back from their encoding gives the
/// blobs, whatever precedes or follows them, when every length fits 16 bits.
pub proof fn lemma_lp16_roundtrip(pre: Seq<u8>, bs: Seq<Seq<u8>>, post: Seq<u8>)
    requires
        forall|i: int| 0 <= i < bs.len() ==> #[trigger] bs[i].len() <= u16::MAX,
    ensures
        parse_lp16(pre + lp16_bytes(bs) + post, pre.len() as int, bs.len() as int) == Some(
            (bs, (pre.len() + lp16_bytes(bs).len()) as int),
        ),
    decreases bs.len(),
{
    if bs.len() > 0 {
        let init = bs.drop_last();
        let last = bs.last();
        let n = (last.len() % 0x10000) as u16;
        let tail = le16(n) + last + post;
        assert(pre + lp16_bytes(bs) + post =~= pre + lp16_bytes(init) + tail);
        lemma_lp16_roundtrip(pre, init, tail);
        let d = pre + lp16_bytes(bs) + post;
        let o: int = (pre.len() + lp16_bytes(init).len()) as int;
        assert(d.subrange(o, o + 2) =~= le16(n));
        lemma_le16_roundtrip(n, d, o);
        assert(d.subrange(o + 2, o + 2 + last.len()) =~= last);
        assert(init.push(last) =~= bs);
    } else {
        assert(lp16_bytes(bs) =~= Seq::<u8>::empty());
    }
}

/// A serialized descriptor deserializes to its ids and metadata and to its whole
/// length, whatever follows it, when the chain has at most 255 steps and no
/// step's metadata exceeds 65535 bytes.
pub proof fn lemma_dag_descriptor_roundtrip(c: Seq<(u8, Seq<u8>)>, post: Seq<u8>)
    requires
        c.len() <= 255,
        forall|i: int| 0 <= i < c.len() ==> #[trigger] c[i].1.len() <= u16::MAX,
    ensures
        parse_dag_descriptor(dag_descriptor_bytes(c) + post) == Some(
            (chain_ids(c), chain_metas(c), dag_descriptor_bytes(c).len() as int),
        ),
{
    let ms = chain_metas(c);
    let pre = seq![(c.len() % 0x100) as u8] + chain_ids(c);
    let d = dag_descriptor_bytes(c) + post;
    assert(d =~= pre + lp16_bytes(ms) + post);
    assert forall|i: int| 0 <= i < ms.len() implies #[trigger] ms[i].len() <= u16::MAX by {
        assert(ms[i] == c[i].1);
    }
    lemma_lp16_roundtrip(pre, ms, post);
    assert(d[0] == c.len());
    assert(d.subrange(1, 1 + c.len() as int) =~= chain_ids(c));
}


/// The profiles keyed by name; a later profile of the same name replaces an
/// earlier one.
pub open spec fn profiles_map(s: Seq<Profile>) -> Map<Seq<char>, Profile>
    decreases s.len(),
{
    if s.len() == 0 {
        Map::empty()
    } else {
        profiles_map(s.drop_last()).insert(s.last().name@, s.last())
    }
}

/// No two profiles share a name.
pub open spec fn names_unique(s: Seq<Profile>) -> bool {
    forall|i: int, j: int| 0 <= i < s.len() && 0 <= j < s.len() && i != j ==> (#[trigger] s[i]).name@ != (#[trigger] s[j]).name@
}

proof fn lemma_profiles_map_dom(s: Seq<Profile>)
    ensures
        forall|k: Seq<char>| #[trigger] profiles_map(s).dom().contains(k) <==> exists|i: int| 0 <= i < s.len() && (#[trigger] s[i]).name@ == k,
    decreases s.len(),
{
    if s.len() > 0 {
        let d = s.drop_last();
        lemma_profiles_map_dom(d);
        assert forall|k: Seq<char>| #[trigger] profiles_map(s).dom().contains(k) <==> exists|i: int| 0 <= i < s.len() && (#[trigger] s[i]).name@ == k by {
            if profiles_map(s).dom().contains(k) {
                if k == s.last().name@ {
                    assert(s[s.len() - 1].name@ == k);
                } else {
                    assert(profiles_map(d).dom().contains(k));
                    let i = choose|i: int| 0 <= i < d.len() && (#[trigger] d[i]).name@ == k;
                    assert(s[i] == d[i]);
                }
            }
            if exists|i: int| 0 <= i < s.len() && (#[trigger] s[i]).name@ == k {
                let i = choose|i: int| 0 <= i < s.len() && (#[trigger] s[i]).name@ == k;
                if i < s.len() - 1 {
                    assert(d[i] == s[i]);
                    assert(profiles_map(d).dom().contains(k));
                }
            }
        }
    }
}

proof fn lemma_profiles_map_at(s: Seq<Profile>, i: int)
    requires
        names_unique(s),
        0 <= i < s.len(),
    ensures
        profiles_map(s).dom().contains(s[i].name@),
        profiles_map(s)[s[i].name@] == s[i],
    decreases s.len(),
{
    if i < s.len() - 1 {
        let d = s.drop_last();
        assert(names_unique(d)) by {
            assert forall|a: int, b: int| 0 <= a < d.len() && 0 <= b < d.len() && a != b implies (#[trigger] d[a]).name@ != (#[trigger] d[b]).name@ by {
                assert(d[a] == s[a] && d[b] == s[b]);
            }
        }
        assert(d[i] == s[i]);
        lemma_profiles_map_at(d, i);
        assert(s[i].name@ != s[s.len() - 1].name@);
    }
}

proof fn lemma_profiles_map_update(s: Seq<Profile>, i: int, p: Profile)
    requires
        names_unique(s),
        0 <= i < s.len(),
        s[i].name@ == p.name@,
    ensures
        profiles_map(s.update(i, p)) == profiles_map(s).insert(p.name@, p),
        names_unique(s.update(i, p)),
{
    let t = s.update(i, p);
    assert(names_unique(t)) by {
        assert forall|a: int, b: int| 0 <= a < t.len() && 0 <= b < t.len() && a != b implies (#[trigger] t[a]).name@ != (#[trigger] t[b]).name@ by {
            assert(t[a].name@ == s[a].name@);
            assert(t[b].name@ == s[b].name@);
        }
    }
    lemma_profiles_map_dom(s);
    lemma_profiles_map_dom(t);
    assert forall|k: Seq<char>| #[trigger] profiles_map(t).dom().contains(k) == profiles_map(s).insert(p.name@, p).dom().contains(k) by {
        if exists|j: int| 0 <= j < t.len() && (#[trigger] t[j]).name@ == k {
            let j = choose|j: int| 0 <= j < t.len() && (#[trigger] t[j]).name@ == k;
            assert(s[j].name@ == k);
        }
        if exists|j: int| 0 <= j < s.len() && (#[trigger] s[j]).name@ == k {
            let j = choose|j: int| 0 <= j < s.len() && (#[trigger] s[j]).name@ == k;
            assert(t[j].name@ == k);
        }
        if k == p.name@ {
            assert(t[i].name@ == k);
        }
    }
    assert forall|k: Seq<char>| #[trigger] profiles_map(t).dom().contains(k) implies profiles_map(t)[k] == profiles_map(s).insert(p.name@, p)[k] by {
        let j = choose|j: int| 0 <= j < t.len() && (#[trigger] t[j]).name@ == k;
        lemma_profiles_map_at(t, j);
        if j != i {
            lemma_profiles_map_at(s, j);
            assert(s[j] == t[j]);
        }
    }
    assert(profiles_map(t) =~= profiles_map(s).insert(p.name@, p));
}

/// Named profiles, each name at most once.
pub struct ProfileCache {
    profiles: Vec<Profile>,
}

impl View for ProfileCache {
    type V = Map<Seq<char>, Profile>;

    closed spec fn view(&self) -> Map<Seq<char>, Profile> {
        profiles_map(self.profiles@)
    }
}

impl ProfileCache {
    /// The profiles' names are distinct.
    pub closed spec fn wf(&self) -> bool {
        names_unique(self.profiles@)
    }

    /// An empty cache.
    pub fn new() -> (r: ProfileCache)
        ensures
            r.wf(),
            r@ == Map::<Seq<char>, Profile>::empty(),
    {
        ProfileCache { profiles: Vec::new() }
    }

    /// Adds a profile, replacing any profile of the same name.
    pub fn add_profile(&mut self, profile: Profile)
        requires
            old(self).wf(),
        ensures
            final(self).wf(),
            final(self)@ == old(self)@.insert(profile.name@, profile),
    {
        let mut i: usize = 0;
        while i < self.profiles.len()
            invariant
                i <= self.profiles@.len(),
                self.profiles@ == old(self).profiles@,
                names_unique(self.profiles@),
                forall|k: int| 0 <= k < i ==> (#[trigger] self.profiles@[k]).name@ != profile.name@,
            decreases self.profiles.len() - i,
        {
            if self.profiles[i].name == profile.name {
                proof {
                    lemma_profiles_map_update(self.profiles@, i as int, profile);
                }
                self.profiles.set(i, profile);
                return;
            }
            i = i + 1;
        }
        let ghost before = self.profiles@;
        self.profiles.push(profile);
        proof {
            assert(self.profiles@.drop_last() =~= before);
            assert(names_unique(self.profiles@)) by {
                assert forall|a: int, b: int| 0 <= a < self.profiles@.len() && 0 <= b < self.profiles@.len() && a != b implies (#[trigger] self.profiles@[a]).name@ != (#[trigger] self.profiles@[b]).name@ by {
                    if a < before.len() && b < before.len() {
                        assert(self.profiles@[a] == before[a] && self.profiles@[b] == before[b]);
                    } else if a < before.len() {
                        assert(self.profiles@[a] == before[a]);
                    } else {
                        assert(self.profiles@[b] == before[b]);
                    }
                }
            }
        }
    }

    /// The profile of a name.
    pub fn get_profile(&self, name: &str) -> (r: Option<&Profile>)
        requires
            self.wf(),
        ensures
            match r {
                Some(p) => self@.dom().contains(name@) && *p == self@[name@],
                None => !self@.dom().contains(name@),
            },
    {
        proof {
            lemma_profiles_map_dom(self.profiles@);
        }
        let key = name.to_owned();
        let mut i: usize = 0;
        while i < self.profiles.len()
            invariant
                i <= self.profiles@.len(),
                key@ == name@,
                names_unique(self.profiles@),
                forall|k: int| 0 <= k < i ==> (#[trigger] self.profiles@[k]).name@ != name@,
            decreases self.profiles.len() - i,
        {
            if self.profiles[i].name == key {
                proof {
                    lemma_profiles_map_at(self.profiles@, i as int);
                }
                return Some(&self.profiles[i]);
            }
            i = i + 1;
        }
        None
    }

    /// The names of all profiles, each once.
    pub fn profile_names(&self) -> (r: Vec<String>)
        requires
            self.wf(),
        ensures
            r@.len() == self@.dom().len(),
            forall|k: Seq<char>| self@.dom().contains(k) <==> exists|i: int| 0 <= i < r@.len() && (#[trigger] r@[i])@ == k,
    {
        proof {
            lemma_profiles_map_dom(self.profiles@);
        }
        let mut out: Vec<String> = Vec::new();
        let mut i: usize = 0;
        while i < self.profiles.len()
            invariant
                i <= self.profiles@.len(),
                out@.len() == i,
                forall|k: int| 0 <= k < i ==> (#[trigger] out@[k])@ == self.profiles@[k].name@,
            decreases self.profiles.len() - i,
        {
            out.push(self.profiles[i].name.clone());
            i = i + 1;
        }
        proof {
            let names = Seq::new(self.profiles@.len(), |k: int| self.profiles@[k].name@);
            assert(names.no_duplicates());
            names.unique_seq_to_set();
            assert(names.to_set() =~= self@.dom()) by {
                assert forall|k: Seq<char>| names.to_set().contains(k) == self@.dom().contains(k) by {
                    if self@.dom().contains(k) {
                        let j = choose|j: int| 0 <= j < self.profiles@.len() && (#[trigger] self.profiles@[j]).name@ == k;
                        assert(names[j] == k);
                    }
                }
            }
            assert forall|k: Seq<char>| self@.dom().contains(k) <==> exists|j: int| 0 <= j < out@.len() && (#[trigger] out@[j])@ == k by {
                if self@.dom().contains(k) {
                    let j = choose|j: int| 0 <= j < self.profiles@.len() && (#[trigger] self.profiles@[j]).name@ == k;
                    assert(out@[j]@ == k);
                }
                if exists|j: int| 0 <= j < out@.len() && (#[trigger] out@[j])@ == k {
                    let j = choose|j: int| 0 <= j < out@.len() && (#[trigger] out@[j])@ == k;
                    assert(self.profiles@[j].name@ == k);
                }
            }
        }
        out
    }
}

fn builtin(name: &str, transforms: Vec<String>, description: &str) -> (r: Profile)
    ensures
        r.name@ == name@,
        r.transforms@ == transforms@,
        r.description@ == description@,
{
    Profile { name: name.to_owned(), transforms, description: description.to_owned() }
}

impl ProfileCache {
    /// A cache holding the built-in profiles: `generic`, `csv_numeric` (the
    /// `parse_int` chain), `csv_string`, `binary_struct` and `float`.
    pub fn with_builtins() -> (r: ProfileCache)
        ensures
            r.wf(),
            r@.dom().len() == 5,
            r@.dom().contains("generic"@),
            r@.dom().contains("csv_numeric"@),
            r@.dom().contains("csv_string"@),
            r@.dom().contains("binary_struct"@),
            r@.dom().contains("float"@),
            r@["csv_numeric"@].transforms@.len() == 1,
            r@["csv_numeric"@].transforms@[0]@ == "parse_int"@,
            r@["generic"@].transforms@.len() == 0,
            r@["csv_string"@].transforms@.len() == 0,
            r@["binary_struct"@].transforms@.len() == 0,
            r@["float"@].transforms@.len() == 0,
    {
        proof {
            reveal_strlit("generic");
            reveal_strlit("csv_numeric");
            reveal_strlit("csv_string");
            reveal_strlit("binary_struct");
            reveal_strlit("float");
        }
        let mut cache = ProfileCache::new();
        cache.add_profile(builtin("generic", Vec::new(), "Generic — SSR-guided preprocessing with no fixed chain"));
        let mut chain: Vec<String> = Vec::new();
        chain.push("parse_int".to_owned());
        cache.add_profile(builtin("csv_numeric", chain, "CSV numeric columns: text→int conversion"));
        cache.add_profile(builtin("csv_string", Vec::new(), "CSV string columns: prefix extraction + tokenization"));
        cache.add_profile(builtin("binary_struct", Vec::new(), "Binary structured data: column transposition"));
        cache.add_profile(builtin("float", Vec::new(), "Float arrays: exponent/mantissa splitting"));
        proof {
            let m = cache@;
            assert("generic"@.len() == 7 && "csv_numeric"@.len() == 11 && "csv_string"@.len() == 10);
            assert("binary_struct"@.len() == 13 && "float"@.len() == 5);
            let s0 = Set::<Seq<char>>::empty();
            let s1 = s0.insert("generic"@);
            let s2 = s1.insert("csv_numeric"@);
            let s3 = s2.insert("csv_string"@);
            let s4 = s3.insert("binary_struct"@);
            let s5 = s4.insert("float"@);
            assert(m.dom() =~= s5);
            assert(!s0.contains("generic"@) && s1.len() == 1);
            assert(!s1.contains("csv_numeric"@) && s2.len() == 2);
            assert(!s2.contains("csv_string"@) && s3.len() == 3);
            assert(!s3.contains("binary_struct"@) && s4.len() == 4);
            assert(!s4.contains("float"@) && s5.len() == 5);
        }
        cache
    }
}

} // verus!
