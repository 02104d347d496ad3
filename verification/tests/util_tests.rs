use biosurf::deterministic::{DeterministicRng, DeterministicTimestamp, JsEnvError};
use biosurf::ip::{IpV4Address, IpV6Address};
use biosurf::session::{CompressionLevel, SessionId, SessionState};
use biosurf::text::decimal_string;

#[test]
fn test_rng_is_reproducible() {
    let mut rng = DeterministicRng::new(12345);
    let mut first: Vec<u64> = Vec::new();
    for _ in 0..5 {
        first.push(rng.next_u64());
    }
    assert_eq!(rng.counter(), 5);
    rng.reset();
    assert_eq!(rng.counter(), 0);
    let mut second: Vec<u64> = Vec::new();
    for _ in 0..5 {
        second.push(rng.next_u64());
    }
    assert_eq!(first, second, "a reset generator repeats its sequence");
    assert_eq!(rng.seed(), 12345);
}

#[test]
fn test_rng_first_draw_value() {
    // One xorshift step over the seeded state, computed independently.
    let seed: u64 = 12345;
    let mut s = seed ^ 0xDEADBEEFDEADBEEF;
    s ^= s << 13;
    s ^= s >> 7;
    s ^= s << 17;
    let mut rng = DeterministicRng::new(seed);
    assert_eq!(rng.next_u64(), s);
}

#[test]
fn test_synthetic_timestamps_count_up() {
    let mut ts = DeterministicTimestamp::with_base_time(100);
    assert_eq!(ts.next(), 100);
    assert_eq!(ts.next(), 101);
    assert_eq!(ts.next(), 102);
    ts.sync_with_remote(500);
    assert_eq!(ts.next(), 500);
    assert_eq!(ts.next(), 501);
}

#[test]
fn test_real_time_is_monotone() {
    let mut ts = DeterministicTimestamp::new(false);
    let a = ts.next();
    let b = ts.next();
    assert!(b >= a);
}

#[test]
fn test_js_error_descriptions() {
    assert_eq!(JsEnvError::Timeout.description(), "Timeout exceeded");
    assert_eq!(
        JsEnvError::SyntaxError("x".to_string()).description(),
        "Syntax error"
    );
    assert_eq!(
        JsEnvError::SecurityViolation("x".to_string()).description(),
        "Security violation"
    );
}

#[test]
fn test_ipv4_text() {
    let ip = IpV4Address { octets: [93, 184, 216, 34] };
    assert_eq!(ip.to_text(), "93.184.216.34");
    let zero = IpV4Address { octets: [0, 0, 0, 0] };
    assert_eq!(zero.to_text(), "0.0.0.0");
}

#[test]
fn test_ipv6_canonical_text() {
    assert_eq!(IpV6Address { groups: [0; 8] }.to_text(), "::");
    assert_eq!(IpV6Address { groups: [0, 0, 0, 0, 0, 0, 0, 1] }.to_text(), "::1");
    assert_eq!(
        IpV6Address { groups: [0x20, 0x0DB8, 0, 0, 0, 0, 0, 1] }.to_text(),
        "20:db8::1"
    );
    // the longest zero run is compressed; a lone zero is not
    assert_eq!(
        IpV6Address { groups: [1, 0, 2, 0, 0, 0, 3, 4] }.to_text(),
        "1:0:2::3:4"
    );
    assert_eq!(
        IpV6Address { groups: [0xFE80, 0, 0, 0, 0x1FF, 0xFE23, 0x4567, 0x890A] }.to_text(),
        "fe80::1ff:fe23:4567:890a"
    );
}

#[test]
fn test_decimal_string() {
    assert_eq!(decimal_string(0), "0");
    assert_eq!(decimal_string(300), "300");
    assert_eq!(decimal_string(u64::MAX), "18446744073709551615");
}

#[test]
fn test_session_id() {
    let id = SessionId::new("test-session");
    assert_eq!(id.as_str(), "test-session");
    let generated = SessionId::generate();
    assert!(generated.as_str().len() > 0);
    assert!(generated.as_str().contains('-'));
}

#[test]
fn test_session_state_fresh() {
    let state = SessionState::new();
    assert!(state.meta.is_active);
    assert_eq!(state.meta.timeout, 3600);
    assert_eq!(state.meta.compression_level, CompressionLevel::Medium);
    let size = state.estimated_size();
    assert_eq!(size, 26, "a fresh session holds only its bookkeeping share");
    assert!(size < 1024, "a fresh session stays under a kilobyte");
}

#[test]
fn test_session_state_size_with_data() {
    let mut state = SessionState::new();
    state.current_url = Some("https://example.com".to_string());
    state
        .headers
        .push(("User-Agent".to_string(), "Machine-HTTP/1.0".to_string()));
    let size = state.estimated_size();
    assert!(size < 2048, "a session with a little data stays under two kilobytes");
    assert!(size > SessionState::new().estimated_size());
}

#[test]
fn test_session_compress_and_decompress() {
    let mut state = SessionState::new();
    assert!(state.compressed_data.is_none());
    state.compress();
    assert_eq!(state.compressed_data.as_deref(), Some(&[] as &[u8]));
    state.decompress();
    assert!(state.compressed_data.is_none());
}

#[test]
fn test_session_expiry_and_idleness() {
    let mut state = SessionState::new();
    state.meta.last_accessed = 1_000;
    state.meta.timeout = 2; // seconds
    assert!(!state.is_expired_at(3_000), "the deadline itself has not passed");
    assert!(state.is_expired_at(3_001));
    assert!(!state.is_idle_at(1_500, 1_000));
    assert!(state.is_idle_at(2_500, 1_000));
    state.touch();
    assert_eq!(state.meta.timeout, 2);
}
