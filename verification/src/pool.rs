//! Pool of reusable byte buffers.
//!
//! Avoids repeated allocation in hot loops by recycling `Vec<u8>` buffers:
//! buffers are handed out cleared, with their capacity kept, and taken back
//! unless they are oversized or the pool is full.

use vstd::prelude::*;

verus! {

/// Buffers whose capacity exceeds this many bytes are not cached.
pub const MAX_CACHED_CAPACITY: usize = 1024 * 1024;

/// Capacity of a buffer.
///
/// Calls `Vec::capacity`, which is at least the length; nothing more is
/// stated, since the capacity is what the allocator gave.
#[verifier::external_body]
fn vec_capacity(v: &Vec<u8>) -> (c: usize)
    ensures
        c >= v@.len(),
{
    v.capacity()
}

/// A new empty buffer with room for `capacity` bytes.
///
/// Calls `Vec::with_capacity`, which panics beyond `isize::MAX` bytes; the
/// buffer is empty.
#[verifier::external_body]
fn vec_with_capacity(capacity: usize) -> (v: Vec<u8>)
    requires
        capacity <= isize::MAX,
    ensures
        v@.len() == 0,
{
    Vec::with_capacity(capacity)
}

/// Pool of reusable byte buffers.
///
/// Each cached buffer is kept with the capacity it had when it was released;
/// a cached buffer is not touched, so that capacity stays its capacity.
pub struct BufferPool {
    pool: Vec<(Vec<u8>, usize)>,
    max_cached: usize,
}

impl View for BufferPool {
    /// (each cached buffer's contents and capacity, most buffers cached)
    type V = (Seq<(Seq<u8>, usize)>, usize);

    closed spec fn view(&self) -> (Seq<(Seq<u8>, usize)>, usize) {
        (Seq::new(self.pool@.len(), |i: int| (self.pool@[i].0@, self.pool@[i].1)), self.max_cached)
    }
}

/// The pool with the buffer at `pos` taken out by swapping in the last one.
pub open spec fn swap_removed(s: Seq<(Seq<u8>, usize)>, pos: int) -> Seq<(Seq<u8>, usize)> {
    s.update(pos, s.last()).drop_last()
}

/// The first cached buffer from `i` on whose capacity is at least `capacity`.
pub open spec fn first_fit_from(s: Seq<(Seq<u8>, usize)>, capacity: usize, i: int) -> Option<int>
    decreases s.len() - i,
{
    if i < 0 || i >= s.len() {
        None
    } else if s[i].1 >= capacity {
        Some(i)
    } else {
        first_fit_from(s, capacity, i + 1)
    }
}

/// The first cached buffer whose capacity is at least `capacity`.
pub open spec fn first_fit(s: Seq<(Seq<u8>, usize)>, capacity: usize) -> Option<int> {
    first_fit_from(s, capacity, 0)
}

/// The pool after `acquire(capacity)`: the first buffer that fits taken out,
/// or the pool as it was when none fits.
pub open spec fn acquired_view(v: (Seq<(Seq<u8>, usize)>, usize), capacity: usize) -> (Seq<(Seq<u8>, usize)>, usize) {
    match first_fit(v.0, capacity) {
        Some(pos) => (swap_removed(v.0, pos), v.1),
        None => v,
    }
}

/// The pool after a buffer of capacity `cap` is released: kept unless its
/// capacity exceeds `MAX_CACHED_CAPACITY` or the pool is full.
pub open spec fn released_view(v: (Seq<(Seq<u8>, usize)>, usize), buf: Seq<u8>, cap: usize) -> (Seq<(Seq<u8>, usize)>, usize) {
    if cap > MAX_CACHED_CAPACITY || v.0.len() >= v.1 {
        v
    } else {
        (v.0.push((buf, cap)), v.1)
    }
}

impl BufferPool {
    /// The pool never caches more than its bound.
    pub open spec fn wf(&self) -> bool {
        self@.0.len() <= self@.1
    }

    /// Creates a pool caching up to `max_cached` buffers.
    pub fn new(max_cached: usize) -> (r: BufferPool)
        ensures
            r@ == (Seq::<(Seq<u8>, usize)>::empty(), max_cached),
            r.wf(),
    {
        let r = BufferPool { pool: Vec::new(), max_cached };
        assert(r@.0 =~= Seq::<(Seq<u8>, usize)>::empty());
        r
    }

    /// Hands out an empty buffer: the first cached one whose capacity is at
    /// least `capacity` (taken out of the pool by swapping in the last one,
    /// cleared, capacity kept), or, when none is, a newly allocated one. The
    /// capacity asked for is at most `isize::MAX`, the most a buffer can
    /// reserve.
    pub fn acquire(&mut self, capacity: usize) -> (r: Vec<u8>)
        requires
            capacity <= isize::MAX,
        ensures
            r@.len() == 0,
            final(self)@ == acquired_view(old(self)@, capacity),
            old(self).wf() ==> final(self).wf(),
    {
        let n = self.pool.len();
        let mut i: usize = 0;
        while i < n
            invariant
                i <= n,
                n == self.pool@.len(),
                self@ == old(self)@,
                first_fit(self@.0, capacity) == first_fit_from(self@.0, capacity, i as int),
            decreases n - i,
        {
            if self.pool[i].1 >= capacity {
                let ghost before = self@.0;
                let (mut buf, _cap) = self.pool.swap_remove(i);
                buf.clear();
                proof {
                    assert(self@.0 =~= swap_removed(before, i as int));
                }
                return buf;
            }
            i = i + 1;
        }
        vec_with_capacity(capacity)
    }

    /// Takes a buffer back: it is cached, with its capacity, unless that
    /// capacity exceeds 1 MiB or the pool is full, and dropped otherwise.
    ///
    /// The capacity is what the allocator gave, at least the buffer's length.
    pub fn release(&mut self, buf: Vec<u8>)
        ensures
            exists|cap: usize| cap >= buf@.len() && final(self)@ == #[trigger] released_view(old(self)@, buf@, cap),
            old(self).wf() ==> final(self).wf(),
    {
        let cap = vec_capacity(&buf);
        self.keep(buf, cap);
    }

    /// Caches a released buffer of capacity `cap` unless that capacity
    /// exceeds 1 MiB or the pool is full.
    fn keep(&mut self, buf: Vec<u8>, cap: usize)
        ensures
            final(self)@ == released_view(old(self)@, buf@, cap),
            old(self).wf() ==> final(self).wf(),
    {
        if cap > MAX_CACHED_CAPACITY {
            return;
        }
        if self.pool.len() < self.max_cached {
            let ghost before = self@.0;
            let ghost b = buf@;
            self.pool.push((buf, cap));
            assert(self@.0 =~= before.push((b, cap)));
        }
    }

    /// Number of buffers currently cached.
    pub fn cached_count(&self) -> (r: usize)
        ensures
            r == self@.0.len(),
    {
        self.pool.len()
    }
}

impl Default for BufferPool {
    fn default() -> (r: Self)
        ensures
            r@ == (Seq::<(Seq<u8>, usize)>::empty(), 16usize),
    {
        BufferPool::new(16)
    }
}

} // verus!
