use dns_stub::SocketPool;

#[test]
fn empty_pool_hands_out_nothing() {
    let mut pool: SocketPool<u32> = SocketPool::new();
    assert_eq!(pool.idle_count(), 0);
    assert_eq!(pool.get(), None);
    assert_eq!(pool.idle_count(), 0);
}

#[test]
fn release_then_acquire_reuses_most_recent() {
    let mut pool: SocketPool<u32> = SocketPool::new();
    pool.return_socket(7);
    pool.return_socket(8);
    assert_eq!(pool.get(), Some(8));
    assert_eq!(pool.get(), Some(7));
    assert_eq!(pool.get(), None);
}

#[test]
fn n_cycle_creates_no_extra_sockets() {
    // Acquire-then-release cycles over N sockets never grow the pool: every
    // re-acquire finds an idle socket waiting.
    let n: u32 = 16;
    let mut pool: SocketPool<u32> = SocketPool::new();
    for s in 0..n {
        pool.return_socket(s);
    }
    assert_eq!(pool.idle_count(), n as usize);
    for _round in 0..3 {
        let mut held = Vec::new();
        for _ in 0..n {
            let socket = pool.get();
            assert!(socket.is_some());
            held.push(socket.unwrap());
        }
        assert_eq!(pool.get(), None);
        assert_eq!(pool.idle_count(), 0);
        for socket in held {
            pool.return_socket(socket);
        }
        assert_eq!(pool.idle_count(), n as usize);
    }
}
