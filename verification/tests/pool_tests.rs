use biosurf::connection_pool::{ConnectionKey, ConnectionPool};

fn key(scheme: &str, host: &str, port: u16) -> ConnectionKey {
    ConnectionKey { scheme: scheme.to_string(), host: host.to_string(), port }
}

#[test]
fn test_fresh_pool_stats() {
    let pool = ConnectionPool::new();
    let stats = pool.get_stats();
    assert_eq!(stats.total_connections, 0);
    assert_eq!(stats.total_idle, 0);
    assert_eq!(stats.total_in_use, 0);
    assert_eq!(stats.max_connections, 100);
    assert_eq!(stats.idle_timeout, 300_000);
    assert_eq!(stats.connection_count, 0);
}

#[test]
fn test_total_matches_table_across_operations() {
    // The counter equals the sum of per-key entry counts at every
    // quiescent point.
    let mut pool = ConnectionPool::with_config(4, 60_000);
    let a = key("http", "a.example", 80);
    let b = key("https", "b.example", 443);

    assert!(pool.try_admit());
    assert!(pool.checkout_idle(&a, 0).is_none());
    let id_a = pool.register_connection(&a, 0);
    assert!(pool.try_admit());
    assert!(pool.checkout_idle(&b, 0).is_none());
    let id_b = pool.register_connection(&b, 0);

    let stats = pool.get_stats();
    assert_eq!(stats.total_connections, 2);
    assert_eq!(stats.total_in_use, 2);
    assert_eq!(stats.total_idle, 0);
    assert_eq!(stats.connection_count, 2);

    pool.release(&a, id_a, 10);
    pool.release(&b, id_b, 10);
    let stats = pool.get_stats();
    assert_eq!(stats.total_connections, 2);
    assert_eq!(stats.total_in_use, 0);
    assert_eq!(stats.total_idle, 2);
}

#[test]
fn test_admission_bound_and_release() {
    // With one permit, a second checkout cannot be admitted until the
    // first guard releases; the suspension the real pool performs shows
    // here as admission answering false.
    let mut pool = ConnectionPool::with_config(1, 60_000);
    let k = key("http", "example.com", 80);

    assert!(pool.try_admit());
    assert!(pool.checkout_idle(&k, 0).is_none());
    let id = pool.register_connection(&k, 0);

    assert!(!pool.try_admit(), "a second checkout must wait while the permit is held");

    pool.release(&k, id, 5);
    assert!(pool.try_admit(), "a release frees the permit and wakes a waiter");
    let reused = pool.checkout_idle(&k, 6);
    assert_eq!(reused, Some(id));
}

#[test]
fn test_checkout_takes_first_available() {
    let mut pool = ConnectionPool::with_config(4, 60_000);
    let k = key("http", "example.com", 80);
    assert!(pool.try_admit());
    let id0 = pool.register_connection(&k, 0);
    assert!(pool.try_admit());
    let id1 = pool.register_connection(&k, 0);
    pool.release(&k, id0, 1);
    pool.release(&k, id1, 1);
    assert!(pool.try_admit());
    assert_eq!(pool.checkout_idle(&k, 2), Some(id0), "first match wins");
    assert!(pool.try_admit());
    assert_eq!(pool.checkout_idle(&k, 2), Some(id1));
}

#[test]
fn test_stale_idle_entry_not_reused() {
    let mut pool = ConnectionPool::with_config(2, 1_000);
    let k = key("http", "example.com", 80);
    assert!(pool.try_admit());
    let id = pool.register_connection(&k, 0);
    pool.release(&k, id, 0);
    assert!(pool.try_admit());
    // 2_000 - 0 >= idle_timeout: the idle entry is stale, so no reuse.
    assert!(pool.checkout_idle(&k, 2_000).is_none());
    pool.return_permit();
}

#[test]
fn test_cleanup_evicts_only_stale_idle() {
    // After a sweep no idle entry past the timeout remains; in-use
    // entries survive regardless of age.
    let mut pool = ConnectionPool::with_config(4, 1_000);
    let k = key("http", "example.com", 80);
    assert!(pool.try_admit());
    let idle_id = pool.register_connection(&k, 0);
    assert!(pool.try_admit());
    let _held_id = pool.register_connection(&k, 0);
    pool.release(&k, idle_id, 0);

    pool.cleanup(10_000);
    let stats = pool.get_stats();
    assert_eq!(stats.total_connections, 1, "the stale idle entry is evicted");
    assert_eq!(stats.total_in_use, 1, "the in-use entry is untouched, whatever its age");
    assert_eq!(stats.total_idle, 0);
    assert_eq!(stats.connection_count, 1);
}

#[test]
fn test_cleanup_drops_empty_keys_and_keeps_fresh() {
    let mut pool = ConnectionPool::with_config(4, 10_000);
    let a = key("http", "a.example", 80);
    let b = key("http", "b.example", 80);
    assert!(pool.try_admit());
    let id_a = pool.register_connection(&a, 0);
    assert!(pool.try_admit());
    let id_b = pool.register_connection(&b, 20_000);
    pool.release(&a, id_a, 0);
    pool.release(&b, id_b, 20_000);

    pool.cleanup(25_000);
    let stats = pool.get_stats();
    assert_eq!(stats.total_connections, 1, "only the fresh idle entry stays");
    assert_eq!(stats.connection_count, 1, "the emptied key is dropped");
    assert!(pool.try_admit());
    assert_eq!(pool.checkout_idle(&b, 25_000), Some(id_b));
}

#[test]
fn test_close_all_connections() {
    let mut pool = ConnectionPool::with_config(1, 60_000);
    let k = key("http", "example.com", 80);
    assert!(pool.try_admit());
    let id = pool.register_connection(&k, 0);
    pool.close_all_connections();
    let stats = pool.get_stats();
    assert_eq!(stats.total_connections, 0);
    assert_eq!(stats.connection_count, 0);
    // The outstanding guard's entry is gone; its release still frees the
    // admission slot, and no more than that.
    assert!(!pool.try_admit());
    pool.release(&k, id, 1);
    assert!(pool.try_admit());
}
