use txpool::rotator::{Ban, PoolRotator, EXPECTED_SIZE};
use txpool::types::{TimedTransactionSource, Transaction};

fn tx(hash: u64, valid_till: u64, arrived: u64) -> Transaction {
    Transaction {
        data: vec![hash as u8],
        bytes: 1,
        hash,
        priority: 1,
        valid_till,
        requires: vec![],
        provides: vec![vec![hash as u8]],
        propagate: true,
        source: TimedTransactionSource::new_external(arrived),
    }
}

#[test]
fn ban_lasts_for_the_ban_time() {
    let mut rotator = PoolRotator::new(10);
    assert!(!rotator.is_banned(0, &7));
    rotator.ban(100, &[7, 8]);
    assert_eq!(rotator.len(), 2);
    assert!(rotator.is_banned(100, &7));
    assert!(rotator.is_banned(109, &8));
    assert!(!rotator.is_banned(110, &7));
    assert!(!rotator.is_banned(100, &9));
}

#[test]
fn ban_deadline_saturates() {
    let mut rotator = PoolRotator::new(u64::MAX);
    rotator.ban(5, &[1]);
    assert!(rotator.is_banned(u64::MAX - 1, &1));
    assert!(!rotator.is_banned(u64::MAX, &1));
}

#[test]
fn banning_again_renews_the_ban() {
    let mut rotator = PoolRotator::new(10);
    rotator.ban(0, &[1]);
    rotator.ban(5, &[1]);
    assert_eq!(rotator.len(), 1);
    assert!(rotator.is_banned(14, &1));
    assert!(!rotator.is_banned(15, &1));
}

#[test]
fn clear_timeouts_forgets_ended_bans() {
    let mut rotator = PoolRotator::new(10);
    rotator.ban(0, &[1]);
    rotator.ban(5, &[2]);
    rotator.clear_timeouts(10);
    assert_eq!(rotator.len(), 1);
    assert!(rotator.is_banned(10, &2));
    rotator.clear_timeouts(15);
    assert_eq!(rotator.len(), 0);
}

#[test]
fn capacity_evicts_the_bans_that_end_first() {
    let mut rotator = PoolRotator::new_with_expected_size(10, 2);
    rotator.ban(3, &[1]);
    rotator.ban(1, &[2]);
    rotator.ban(2, &[3]);
    assert_eq!(rotator.len(), 2);
    assert!(rotator.is_banned(3, &1));
    assert!(!rotator.is_banned(3, &2));
    assert!(rotator.is_banned(3, &3));
}

#[test]
fn default_capacity_is_kept() {
    let mut rotator = PoolRotator::new(10);
    let many: Vec<u64> = (0..(EXPECTED_SIZE as u64 + 10)).collect();
    rotator.ban(0, &many);
    assert_eq!(rotator.len(), EXPECTED_SIZE);
    assert!(!rotator.is_banned(0, &0));
    assert!(rotator.is_banned(0, &(EXPECTED_SIZE as u64 + 9)));
}

#[test]
fn stale_by_validity_is_banned() {
    let mut rotator = PoolRotator::new(10);
    assert!(!rotator.ban_if_stale(0, 100, &tx(1, 100, 0)));
    assert!(!rotator.is_banned(0, &1));
    assert!(rotator.ban_if_stale(0, 101, &tx(1, 100, 0)));
    assert!(rotator.is_banned(0, &1));
}

#[test]
fn stale_by_age_is_banned() {
    let mut rotator = PoolRotator::new(10).with_hard_age(50);
    assert!(!rotator.ban_if_stale(60, 1, &tx(1, 100, 10)));
    assert!(rotator.ban_if_stale(61, 1, &tx(1, 100, 10)));
    assert!(rotator.is_banned(61, &1));
    assert!(!rotator.ban_if_stale(5, 1, &tx(2, 100, 10)));
}

#[test]
fn duplicate_keeps_the_bans() {
    let mut rotator = PoolRotator::new(10);
    rotator.ban(0, &[4]);
    let copy = rotator.duplicate();
    assert!(copy.is_banned(1, &4));
    assert_eq!(copy.len(), 1);
    assert_eq!(Ban { hash: 4, until: 10 }, Ban { hash: 4, until: 10 });
}
