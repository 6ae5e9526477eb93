//! The address directory: failure counts, banning, and sampling.

use kaspadag::addresses::{
    AddressManager, NetAddress, MAX_ADDRESSES, MAX_BANNED_TIME, MAX_CONNECTION_FAILED_COUNT,
};

fn addr(ip: u128, port: u16) -> NetAddress {
    NetAddress { ip, port }
}

#[test]
fn add_and_mark_success_resets_count() {
    let mut m = AddressManager::new();
    let a = addr(10, 111);
    m.add_address(a);
    // A fresh address starts with one pre-success failure.
    let all = m.get_all_addresses();
    assert_eq!(all, vec![a]);
    // Failures accumulate, success resets to zero.
    m.mark_connection_failure(a);
    m.mark_connection_failure(a);
    m.mark_connection_success(a);
    m.mark_connection_failure(a);
    m.mark_connection_success(a);
    assert_eq!(m.get_all_addresses(), vec![a]);
}

#[test]
fn repeated_failures_evict() {
    let mut m = AddressManager::new();
    let a = addr(10, 111);
    m.add_address(a);
    // Count starts at 1; three more failures exceed the tolerance of 3.
    m.mark_connection_failure(a);
    m.mark_connection_failure(a);
    assert_eq!(m.get_all_addresses().len(), 1);
    m.mark_connection_failure(a);
    assert_eq!(m.get_all_addresses().len(), 0);
    assert_eq!(MAX_CONNECTION_FAILED_COUNT, 3);
}

#[test]
fn ban_purges_matching_ips() {
    let mut m = AddressManager::new();
    let a1 = addr(10, 111);
    let a2 = addr(10, 222);
    let b = addr(20, 111);
    m.add_address(a1);
    m.add_address(a2);
    m.add_address(b);
    m.ban(10, 5_000);
    // Every entry whose IP matches is gone; the others remain.
    let all = m.get_all_addresses();
    assert_eq!(all, vec![b]);
    assert!(m.is_banned(10, 5_000));
    assert!(!m.is_banned(20, 5_000));
}

#[test]
fn bans_expire_lazily() {
    let mut m = AddressManager::new();
    m.ban(10, 1_000);
    assert!(m.is_banned(10, 1_000 + MAX_BANNED_TIME));
    // One millisecond past the duration, the query lifts the ban.
    assert!(!m.is_banned(10, 1_000 + MAX_BANNED_TIME + 1));
    assert!(!m.is_banned(10, 2_000));
    // An explicit unban also works.
    m.ban(30, 1_000);
    m.unban(30);
    assert!(!m.is_banned(30, 1_001));
}

#[test]
fn random_addresses_form_a_permutation() {
    let mut m = AddressManager::new();
    let mut expected: Vec<NetAddress> = Vec::new();
    for i in 0..50u128 {
        let a = addr(i + 1, 1111);
        m.add_address(a);
        if i % 5 != 0 {
            expected.push(a);
        }
    }
    let exceptions: Vec<NetAddress> = (0..50u128)
        .filter(|i| i % 5 == 0)
        .map(|i| addr(i + 1, 1111))
        .collect();
    let got = m.get_random_addresses(exceptions);
    // No duplicates, and exactly the non-excepted addresses.
    let mut sorted: Vec<u128> = got.iter().map(|a| a.ip).collect();
    sorted.sort();
    let mut want: Vec<u128> = expected.iter().map(|a| a.ip).collect();
    want.sort();
    assert_eq!(sorted, want);
    // The sampling is weighted, so the order varies between draws, but the
    // members never do.
    let got2 = m.get_random_addresses(
        (0..50u128).filter(|i| i % 5 == 0).map(|i| addr(i + 1, 1111)).collect(),
    );
    let mut sorted2: Vec<u128> = got2.iter().map(|a| a.ip).collect();
    sorted2.sort();
    assert_eq!(sorted2, want);
}

#[test]
fn cardinality_never_exceeds_the_bound() {
    let mut m = AddressManager::new();
    for i in 0..(MAX_ADDRESSES as u128 + 500) {
        m.add_address(addr(i + 1, 1));
    }
    assert!(m.get_all_addresses().len() <= MAX_ADDRESSES);
    assert_eq!(m.get_all_addresses().len(), MAX_ADDRESSES);
    // The most recent address always found room.
    let last = addr(MAX_ADDRESSES as u128 + 500, 1);
    assert!(m
        .get_all_addresses()
        .iter()
        .any(|a| *a == last));
}

#[test]
fn full_store_evicts_the_worst_entry() {
    let mut m = AddressManager::new();
    for i in 0..MAX_ADDRESSES as u128 {
        m.add_address(addr(i + 1, 1));
    }
    // Give one entry the worst record without evicting it.
    let bad = addr(1, 1);
    m.mark_connection_failure(bad);
    m.mark_connection_failure(bad);
    assert!(m.get_all_addresses().contains(&bad));
    // The next fresh address pushes the worst entry out.
    let fresh = addr(999_999, 1);
    m.add_address(fresh);
    let all = m.get_all_addresses();
    assert!(all.contains(&fresh));
    assert!(!all.contains(&bad));
    assert_eq!(all.len(), MAX_ADDRESSES);
}
