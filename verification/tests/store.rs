//! Tests of the shared store: deduplication, persistence and recovery.

use hi_counter::persist::parse_count;
use hi_counter::state::save_needed;
use hi_counter::state::State;
use hi_counter::system::HostSnapshot;
use hi_counter::system::MemStats;
use hi_counter::system::Uptime;

/// An IPv4 address as the library's 128-bit address value (its IPv6-mapped
/// form).
fn ip4(a: u8, b: u8, c: u8, d: u8) -> u128 {
    0xffff_0000_0000u128
        | (a as u128) << 24
        | (b as u128) << 16
        | (c as u128) << 8
        | (d as u128)
}

fn test_snapshot() -> HostSnapshot {
    HostSnapshot {
        ip: None,
        os_name: String::from("Test OS"),
        uname: String::from("Test kernel"),
        memory: None,
        uptime: Uptime::new(0),
    }
}

/// A store with a zero count and a 100 ms dedup window.
fn test_state() -> State {
    State::new(0, 100, test_snapshot())
}

#[test]
fn test_inc_hello_dedup() {
    let localhost = ip4(127, 0, 0, 1);
    let mut state = test_state();

    state.inc_hi_count(localhost, 0);
    state.inc_hi_count(localhost, 10);
    state.inc_hi_count(localhost, 20);

    assert_eq!(state.hi_count(), 1);
}

#[test]
fn test_inc_hello_expiration() {
    let localhost = ip4(127, 0, 0, 1);
    let mut state = test_state();

    state.inc_hi_count(localhost, 0);
    state.inc_hi_count(localhost, 50);
    state.inc_hi_count(localhost, 101);
    state.inc_hi_count(localhost, 102);

    assert_eq!(state.hi_count(), 2);
}

#[test]
fn test_dedup_window_boundary() {
    let localhost = ip4(127, 0, 0, 1);

    // An age of exactly the window is still rejected.
    let mut state = test_state();
    state.inc_hi_count(localhost, 0);
    state.inc_hi_count(localhost, 100);
    assert_eq!(state.hi_count(), 1);

    // One past the window is counted again.
    let mut state = test_state();
    state.inc_hi_count(localhost, 0);
    state.inc_hi_count(localhost, 101);
    assert_eq!(state.hi_count(), 2);
}

#[test]
fn test_hello_scenario_ttl_100ms() {
    // Hello at t=0 counts, a repeat at t=50ms does not, one at t=150ms does.
    let localhost = ip4(127, 0, 0, 1);
    let mut state = test_state();
    state.inc_hi_count(localhost, 0);
    assert_eq!(state.hi_count(), 1);
    state.inc_hi_count(localhost, 50);
    assert_eq!(state.hi_count(), 1);
    state.inc_hi_count(localhost, 150);
    assert_eq!(state.hi_count(), 2);
}

#[test]
fn test_distinct_addresses_all_count() {
    let mut state = test_state();
    let addrs = [
        ip4(10, 0, 0, 1),
        ip4(10, 0, 0, 2),
        ip4(192, 168, 1, 7),
        ip4(127, 0, 0, 1),
        ip4(8, 8, 8, 8),
    ];
    // All at the same instant, as concurrent arrivals are serialized in
    // some order; distinct addresses never dedup against each other.
    for addr in addrs {
        state.inc_hi_count(addr, 5);
    }
    assert_eq!(state.hi_count(), addrs.len());
}

#[test]
fn test_save_load_round_trip() {
    for v in [0usize, 1, 7, 42, 1533, 1_000_000, usize::MAX] {
        let state = State::new(v, 100, test_snapshot());
        let bytes = state.save_hi_count();
        assert_eq!(parse_count(&bytes), v);
    }
}

#[test]
fn test_load_absent_or_garbage_is_zero() {
    // Absent file.
    let state = State::load(None, 100, test_snapshot());
    assert_eq!(state.hi_count(), 0);

    // Non-numeric, mixed, empty and blank contents.
    for garbage in [&b"abc"[..], b"12x3", b"", b"   ", b"-5", b"4 2"] {
        let state = State::load(Some(garbage), 100, test_snapshot());
        assert_eq!(state.hi_count(), 0);
    }
}

#[test]
fn test_load_parses_stored_number() {
    let state = State::load(Some(b"42"), 100, test_snapshot());
    assert_eq!(state.hi_count(), 42);
    let state = State::load(Some(b" 1533\n"), 100, test_snapshot());
    assert_eq!(state.hi_count(), 1533);
}

#[test]
fn test_parse_overflow_is_zero() {
    assert_eq!(parse_count(b"99999999999999999999999999999999999999"), 0);
}

#[test]
fn test_crash_during_save_keeps_committed_value() {
    // The save protocol writes the new text to a temporary file, then
    // renames it over the destination atomically. Simulate a crash after
    // every prefix of the temporary write: the destination still holds the
    // last committed text, so recovery still reads the committed value.
    let committed = State::new(41, 100, test_snapshot()).save_hi_count();
    let new_bytes = State::new(1342, 100, test_snapshot()).save_hi_count();
    for k in 0..=new_bytes.len() {
        let _tmp_after_crash = &new_bytes[..k];
        let dest_after_crash = &committed;
        assert_eq!(parse_count(dest_after_crash), 41);
    }
    // Only the atomic rename switches the destination, wholesale.
    assert_eq!(parse_count(&new_bytes), 1342);
}

#[test]
fn test_sweep_drops_only_stale_entries() {
    let a = ip4(10, 0, 0, 1);
    let b = ip4(10, 0, 0, 2);
    let mut state = test_state();
    state.inc_hi_count(a, 0);
    state.inc_hi_count(b, 550);
    assert_eq!(state.hi_count(), 2);
    assert_eq!(state.tracked_addresses(), 2);

    // At t=600, a's entry (age 600) is past the 100 ms window; b's (age 50)
    // is not.
    state.sweep(600);
    assert_eq!(state.hi_count(), 2);
    assert_eq!(state.tracked_addresses(), 1);

    // Decisions are unchanged by the sweep: a repeat from a would have been
    // counted anyway, and a repeat from b is still deduplicated.
    state.inc_hi_count(a, 610);
    assert_eq!(state.hi_count(), 3);
    state.inc_hi_count(b, 620);
    assert_eq!(state.hi_count(), 3);
}

#[test]
fn test_sweep_keeps_entries_at_the_window() {
    let a = ip4(127, 0, 0, 1);
    let mut state = test_state();
    state.inc_hi_count(a, 0);
    // An age of exactly the window is not yet past it.
    state.sweep(100);
    assert_eq!(state.tracked_addresses(), 1);
    state.sweep(101);
    assert_eq!(state.tracked_addresses(), 0);
}

#[test]
fn test_save_needed_only_on_change() {
    assert!(!save_needed(0, 0));
    assert!(save_needed(1, 0));
    assert!(!save_needed(7, 7));
    assert!(save_needed(6, 7));
}

#[test]
fn test_refresh_replaces_snapshot_only() {
    let localhost = ip4(127, 0, 0, 1);
    let mut state = test_state();
    state.inc_hi_count(localhost, 0);
    let fresh = HostSnapshot {
        ip: Some(0x7f000001),
        os_name: String::from("Renamed OS"),
        uname: String::from("Test kernel"),
        memory: Some(MemStats { total: 1024, free: 512 }),
        uptime: Uptime::new(62),
    };
    state.refresh(fresh);
    assert_eq!(state.hi_count(), 1);
    let snap = state.snapshot();
    assert_eq!(snap.ip, Some(0x7f000001));
    assert_eq!(snap.os_name, "Renamed OS");
    assert_eq!(snap.memory, Some(MemStats { total: 1024, free: 512 }));
    assert_eq!(snap.uptime, Uptime::new(62));
    // A repeat hello within the window still dedups across a refresh.
    state.inc_hi_count(localhost, 50);
    assert_eq!(state.hi_count(), 1);
}
