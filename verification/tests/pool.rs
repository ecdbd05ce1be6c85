use cpac::pool::BufferPool;

#[test]
fn acquire_release_reuse() {
    let mut pool = BufferPool::new(4);
    let buf = pool.acquire(1024);
    assert!(buf.capacity() >= 1024);
    pool.release(buf);
    assert_eq!(pool.cached_count(), 1);

    let buf2 = pool.acquire(512);
    assert!(buf2.capacity() >= 1024);
    assert_eq!(pool.cached_count(), 0);
}

#[test]
fn oversized_not_cached() {
    let mut pool = BufferPool::new(4);
    let buf = Vec::with_capacity(2 * 1024 * 1024);
    pool.release(buf);
    assert_eq!(pool.cached_count(), 0);
}

#[test]
fn max_cached_respected() {
    let mut pool = BufferPool::new(2);
    pool.release(Vec::with_capacity(100));
    pool.release(Vec::with_capacity(100));
    pool.release(Vec::with_capacity(100));
    assert_eq!(pool.cached_count(), 2);
}

#[test]
fn acquired_buffer_is_cleared() {
    let mut pool = BufferPool::default();
    let mut v = Vec::with_capacity(64);
    v.extend_from_slice(b"stale");
    pool.release(v);
    let got = pool.acquire(8);
    assert!(got.is_empty());
    assert_eq!(pool.cached_count(), 0);
}
