use txpool::base_pool::{BasePool, Imported, Limit};
use txpool::error::Error;
use txpool::types::{TimedTransactionSource, Transaction};

fn tx(hash: u64, priority: u64, requires: &[&[u8]], provides: &[&[u8]]) -> Transaction {
    Transaction {
        data: vec![hash as u8],
        bytes: 1,
        hash,
        priority,
        valid_till: 64,
        requires: requires.iter().map(|t| t.to_vec()).collect(),
        provides: provides.iter().map(|t| t.to_vec()).collect(),
        propagate: true,
        source: TimedTransactionSource::new_external(0),
    }
}

fn hashes(list: &[Transaction]) -> Vec<u64> {
    list.iter().map(|t| t.hash).collect()
}

#[test]
fn import_without_requirements_is_ready() {
    let mut pool = BasePool::new(false);
    let res = pool.import(tx(1, 5, &[], &[b"a"]));
    assert_eq!(
        res,
        Ok(Imported::Ready { hash: 1, promoted: vec![], failed: vec![], removed: vec![] })
    );
    assert_eq!(hashes(&pool.ready()), vec![1]);
    assert_eq!(pool.status().ready, 1);
    assert_eq!(pool.status().ready_bytes, 1);
    assert_eq!(pool.status().future, 0);
}

#[test]
fn import_twice_is_refused() {
    let mut pool = BasePool::new(false);
    pool.import(tx(1, 5, &[], &[b"a"])).unwrap();
    assert_eq!(pool.import(tx(1, 5, &[], &[b"a"])), Err(Error::AlreadyImported(1)));
    assert_eq!(pool.status().ready, 1);
}

#[test]
fn import_with_unmet_requirement_waits() {
    let mut pool = BasePool::new(false);
    let res = pool.import(tx(1, 5, &[b"a"], &[b"b"]));
    assert_eq!(res, Ok(Imported::Future { hash: 1 }));
    assert_eq!(pool.status().future, 1);
    assert_eq!(pool.status().future_bytes, 1);
    assert!(pool.ready().is_empty());
    assert_eq!(hashes(&pool.futures()), vec![1]);
}

#[test]
fn rejecting_pool_refuses_future() {
    let mut pool = BasePool::new(true);
    assert_eq!(pool.import(tx(1, 5, &[b"a"], &[b"b"])), Err(Error::RejectedFutureTransaction));
    assert_eq!(pool.status().future, 0);
}

#[test]
fn import_promotes_what_it_unlocks() {
    let mut pool = BasePool::new(false);
    pool.import(tx(2, 5, &[b"a"], &[b"b"])).unwrap();
    pool.import(tx(3, 5, &[b"b"], &[b"c"])).unwrap();
    let res = pool.import(tx(1, 5, &[], &[b"a"]));
    assert_eq!(
        res,
        Ok(Imported::Ready { hash: 1, promoted: vec![2, 3], failed: vec![], removed: vec![] })
    );
    assert_eq!(hashes(&pool.ready()), vec![1, 2, 3]);
    assert_eq!(pool.status().future, 0);
}

#[test]
fn usurpation_replaces_the_lower_priority() {
    let mut pool = BasePool::new(false);
    pool.import(tx(1, 5, &[], &[b"x"])).unwrap();
    let res = pool.import(tx(2, 10, &[], &[b"x"]));
    match res {
        Ok(Imported::Ready { hash, promoted, failed, removed }) => {
            assert_eq!(hash, 2);
            assert!(promoted.is_empty());
            assert!(failed.is_empty());
            assert_eq!(hashes(&removed), vec![1]);
        },
        other => panic!("unexpected {:?}", other),
    }
    assert_eq!(hashes(&pool.ready()), vec![2]);
    assert_eq!(pool.status().ready, 1);
}

#[test]
fn low_priority_is_refused() {
    let mut pool = BasePool::new(false);
    pool.import(tx(2, 10, &[], &[b"x"])).unwrap();
    assert_eq!(
        pool.import(tx(1, 5, &[], &[b"x"])),
        Err(Error::TooLowPriority { old: 10, new: 5 })
    );
    assert_eq!(hashes(&pool.ready()), vec![2]);
    assert!(!pool.is_imported(&1));
}

#[test]
fn equal_priority_is_refused() {
    let mut pool = BasePool::new(false);
    pool.import(tx(2, 10, &[], &[b"x"])).unwrap();
    assert_eq!(
        pool.import(tx(1, 10, &[], &[b"x"])),
        Err(Error::TooLowPriority { old: 10, new: 10 })
    );
}

#[test]
fn usurping_what_one_requires_is_a_cycle() {
    let mut pool = BasePool::new(false);
    pool.import(tx(1, 5, &[], &[b"a"])).unwrap();
    assert_eq!(pool.import(tx(2, 10, &[b"a"], &[b"a"])), Err(Error::CycleDetected));
    assert_eq!(hashes(&pool.ready()), vec![1]);
}

#[test]
fn usurpation_cascades_to_dependents() {
    let mut pool = BasePool::new(false);
    pool.import(tx(1, 5, &[], &[b"a", b"x"])).unwrap();
    pool.import(tx(2, 5, &[b"a"], &[b"b"])).unwrap();
    let res = pool.import(tx(3, 10, &[], &[b"x"])).unwrap();
    match res {
        Imported::Ready { hash, promoted, failed, removed } => {
            assert_eq!(hash, 3);
            assert!(promoted.is_empty());
            assert_eq!(failed, vec![2]);
            assert_eq!(hashes(&removed), vec![1]);
        },
        other => panic!("unexpected {:?}", other),
    }
    assert_eq!(hashes(&pool.ready()), vec![3]);
}

#[test]
fn ready_order_is_by_dependency_then_priority() {
    let mut pool = BasePool::new(false);
    pool.import(tx(1, 1, &[], &[b"a"])).unwrap();
    pool.import(tx(2, 100, &[b"a"], &[b"b"])).unwrap();
    pool.import(tx(3, 50, &[], &[b"c"])).unwrap();
    pool.import(tx(4, 50, &[], &[b"d"])).unwrap();
    assert_eq!(hashes(&pool.ready()), vec![3, 4, 1, 2]);
    assert_eq!(hashes(&pool.ready()), hashes(&pool.ready()));
}

#[test]
fn ready_order_breaks_ties_by_arrival() {
    let mut pool = BasePool::new(false);
    let mut late = tx(1, 7, &[], &[b"a"]);
    late.source = TimedTransactionSource::new_local(9);
    let mut early = tx(2, 7, &[], &[b"b"]);
    early.source = TimedTransactionSource::new_local(3);
    pool.import(late).unwrap();
    pool.import(early).unwrap();
    assert_eq!(hashes(&pool.ready()), vec![2, 1]);
}

#[test]
fn prune_promotes_future() {
    let mut pool = BasePool::new(false);
    assert_eq!(pool.import(tx(1, 10, &[b"a"], &[b"b"])), Ok(Imported::Future { hash: 1 }));
    let status = pool.prune_tags(vec![b"a".to_vec()]);
    assert!(status.pruned.is_empty());
    assert!(status.failed.is_empty());
    assert_eq!(
        status.promoted,
        vec![Imported::Ready { hash: 1, promoted: vec![], failed: vec![], removed: vec![] }]
    );
    assert_eq!(pool.status().ready, 1);
    assert_eq!(pool.status().future, 0);
}

#[test]
fn prune_removes_providers_and_keeps_dependents() {
    let mut pool = BasePool::new(false);
    pool.import(tx(1, 5, &[], &[b"a"])).unwrap();
    pool.import(tx(2, 5, &[b"a"], &[b"b"])).unwrap();
    let status = pool.prune_tags(vec![b"a".to_vec()]);
    assert_eq!(hashes(&status.pruned), vec![1]);
    assert!(status.failed.is_empty());
    assert!(status.promoted.is_empty());
    assert_eq!(hashes(&pool.ready()), vec![2]);
}

#[test]
fn prune_twice_does_nothing_more() {
    let mut pool = BasePool::new(false);
    pool.import(tx(1, 5, &[], &[b"a"])).unwrap();
    pool.import(tx(2, 5, &[b"z"], &[b"b"])).unwrap();
    pool.import(tx(3, 5, &[b"q"], &[b"a"])).unwrap();
    let first = pool.prune_tags(vec![b"a".to_vec(), b"z".to_vec()]);
    assert_eq!(hashes(&first.pruned), vec![1]);
    assert_eq!(first.failed, vec![3]);
    assert_eq!(first.promoted.len(), 1);
    let before = pool.status();
    let second = pool.prune_tags(vec![b"a".to_vec(), b"z".to_vec()]);
    assert!(second.pruned.is_empty());
    assert!(second.failed.is_empty());
    assert!(second.promoted.is_empty());
    assert_eq!(pool.status(), before);
}

#[test]
fn consumed_tags_satisfy_later_imports() {
    let mut pool = BasePool::new(false);
    pool.prune_tags(vec![b"a".to_vec()]);
    let res = pool.import(tx(1, 5, &[b"a"], &[b"b"])).unwrap();
    assert_eq!(res, Imported::Ready { hash: 1, promoted: vec![], failed: vec![], removed: vec![] });
}

#[test]
fn remove_subtree_takes_dependents() {
    let mut pool = BasePool::new(false);
    pool.import(tx(1, 5, &[], &[b"a"])).unwrap();
    pool.import(tx(2, 5, &[b"a"], &[b"b"])).unwrap();
    pool.import(tx(3, 5, &[b"b"], &[b"c"])).unwrap();
    pool.import(tx(4, 5, &[], &[b"d"])).unwrap();
    pool.import(tx(5, 5, &[b"zz"], &[b"e"])).unwrap();
    let removed = pool.remove_subtree(&[1, 5]);
    assert_eq!(hashes(&removed), vec![1, 2, 3, 5]);
    assert_eq!(hashes(&pool.ready()), vec![4]);
    assert_eq!(pool.status().future, 0);
}

#[test]
fn import_then_remove_restores_status() {
    let mut pool = BasePool::new(false);
    pool.import(tx(1, 5, &[], &[b"a"])).unwrap();
    pool.import(tx(9, 5, &[b"n"], &[b"m"])).unwrap();
    let before = pool.status();
    pool.import(tx(2, 5, &[b"a"], &[b"b"])).unwrap();
    assert_ne!(pool.status(), before);
    pool.remove_subtree(&[2]);
    assert_eq!(pool.status(), before);
    pool.import(tx(3, 5, &[b"k"], &[b"l"])).unwrap();
    pool.remove_subtree(&[3]);
    assert_eq!(pool.status(), before);
}

#[test]
fn enforce_limits_evicts_lowest_priority() {
    let mut pool = BasePool::new(false);
    pool.import(tx(1, 1, &[], &[b"a"])).unwrap();
    pool.import(tx(2, 2, &[], &[b"b"])).unwrap();
    pool.import(tx(3, 3, &[], &[b"c"])).unwrap();
    let ready = Limit { count: 2, total_bytes: 100 };
    let future = Limit { count: 2, total_bytes: 100 };
    let removed = pool.enforce_limits(&ready, &future);
    assert_eq!(hashes(&removed), vec![1]);
    assert_eq!(hashes(&pool.ready()), vec![3, 2]);
}

#[test]
fn enforce_limits_counts_bytes() {
    let mut pool = BasePool::new(false);
    let mut big = tx(1, 9, &[], &[b"a"]);
    big.bytes = 10;
    pool.import(big).unwrap();
    pool.import(tx(2, 1, &[], &[b"b"])).unwrap();
    pool.import(tx(3, 1, &[b"q"], &[b"c"])).unwrap();
    pool.import(tx(4, 1, &[b"r"], &[b"d"])).unwrap();
    assert_eq!(pool.status().ready_bytes, 11);
    let removed = pool.enforce_limits(
        &Limit { count: 10, total_bytes: 10 },
        &Limit { count: 1, total_bytes: 10 },
    );
    assert_eq!(hashes(&removed), vec![2, 3]);
    assert_eq!(pool.status().ready_bytes, 10);
    assert_eq!(pool.status().future, 1);
}

#[test]
fn lookups_find_records_by_hash() {
    let mut pool = BasePool::new(false);
    pool.import(tx(1, 5, &[], &[b"a"])).unwrap();
    pool.import(tx(2, 5, &[b"x"], &[b"b"])).unwrap();
    assert_eq!(pool.ready_by_hash(&1).map(|t| t.hash), Some(1));
    assert_eq!(pool.ready_by_hash(&2), None);
    let found = pool.by_hashes(&[2, 7, 1]);
    assert_eq!(found.len(), 3);
    assert_eq!(found[0].as_ref().map(|t| t.hash), Some(2));
    assert!(found[1].is_none());
    assert_eq!(found[2].as_ref().map(|t| t.hash), Some(1));
    assert!(pool.is_imported(&2));
    assert!(!pool.is_imported(&7));
}

#[test]
fn clear_future_empties_the_future_partition() {
    let mut pool = BasePool::new(false);
    pool.import(tx(1, 5, &[b"x"], &[b"a"])).unwrap();
    pool.import(tx(2, 5, &[], &[b"b"])).unwrap();
    let cleared = pool.clear_future();
    assert_eq!(hashes(&cleared), vec![1]);
    assert_eq!(pool.status().future, 0);
    assert_eq!(pool.status().future_bytes, 0);
    assert_eq!(pool.status().ready, 1);
}

#[test]
fn future_rejection_can_be_suspended() {
    let mut pool = BasePool::new(true);
    assert!(pool.suspend_future_rejection());
    assert_eq!(pool.import(tx(1, 5, &[b"x"], &[b"a"])), Ok(Imported::Future { hash: 1 }));
    pool.restore_future_rejection(true);
    assert!(pool.rejects_future());
    assert_eq!(pool.import(tx(2, 5, &[b"y"], &[b"b"])), Err(Error::RejectedFutureTransaction));
}

#[test]
fn status_matches_a_full_scan() {
    let mut pool = BasePool::new(false);
    let mut sizes = vec![];
    for (i, bytes) in [3usize, 10, 7, 1, 20].iter().enumerate() {
        let hash = i as u64 + 1;
        let mut t = if i % 2 == 0 {
            tx(hash, hash, &[], &[&[hash as u8]])
        } else {
            tx(hash, hash, &[b"missing"], &[&[hash as u8]])
        };
        t.bytes = *bytes;
        sizes.push(*bytes);
        pool.import(t).unwrap();
    }
    let scan_ready: usize = pool.ready().iter().map(|t| t.bytes).sum();
    let scan_future: usize = pool.futures().iter().map(|t| t.bytes).sum();
    assert_eq!(pool.status().ready, 3);
    assert_eq!(pool.status().future, 2);
    assert_eq!(pool.status().ready_bytes, scan_ready);
    assert_eq!(pool.status().future_bytes, scan_future);
    assert_eq!(scan_ready, 30);
    assert_eq!(scan_future, 11);
    pool.prune_tags(vec![b"missing".to_vec(), vec![1]]);
    let scan_ready: usize = pool.ready().iter().map(|t| t.bytes).sum();
    assert_eq!(pool.status().ready_bytes, scan_ready);
    assert_eq!(pool.status().ready, 4);
    assert_eq!(pool.status().future_bytes, 0);
}

#[test]
fn same_operations_give_the_same_order() {
    let run = || {
        let mut pool = BasePool::new(false);
        pool.import(tx(5, 3, &[], &[b"e"])).unwrap();
        pool.import(tx(1, 3, &[b"e"], &[b"a"])).unwrap();
        pool.import(tx(2, 9, &[b"x"], &[b"b"])).unwrap();
        pool.import(tx(3, 3, &[], &[b"c"])).unwrap();
        pool.prune_tags(vec![b"x".to_vec()]);
        pool.remove_subtree(&[3]);
        pool.import(tx(4, 1, &[b"b"], &[b"d"])).unwrap();
        pool.ready()
    };
    let first = run();
    let second = run();
    assert_eq!(first, second);
    assert_eq!(hashes(&first), vec![2, 5, 1, 4]);
}

#[test]
fn a_hash_is_in_one_partition_only() {
    let mut pool = BasePool::new(false);
    pool.import(tx(1, 5, &[b"a"], &[b"b"])).unwrap();
    assert_eq!(pool.import(tx(1, 9, &[], &[b"c"])), Err(Error::AlreadyImported(1)));
    pool.prune_tags(vec![b"a".to_vec()]);
    assert_eq!(hashes(&pool.ready()), vec![1]);
    assert!(pool.futures().is_empty());
    assert_eq!(pool.ready_by_hash(&1), pool.ready().into_iter().next());
}

#[test]
fn promotion_takes_the_best_first() {
    let mut pool = BasePool::new(false);
    pool.import(tx(1, 1, &[b"a"], &[b"x"])).unwrap();
    pool.import(tx(2, 9, &[b"a"], &[b"x"])).unwrap();
    let res = pool.import(tx(3, 5, &[], &[b"a"])).unwrap();
    assert_eq!(
        res,
        Imported::Ready { hash: 3, promoted: vec![2], failed: vec![1], removed: vec![] }
    );
    assert_eq!(hashes(&pool.ready()), vec![3, 2]);
    assert_eq!(pool.status().future, 0);
}

#[test]
fn promotion_cannot_dislodge_what_unlocked_it() {
    let mut pool = BasePool::new(false);
    pool.import(tx(2, 9, &[b"a"], &[b"a"])).unwrap();
    let res = pool.import(tx(1, 5, &[], &[b"a"])).unwrap();
    assert_eq!(
        res,
        Imported::Ready { hash: 1, promoted: vec![], failed: vec![2], removed: vec![] }
    );
    assert_eq!(hashes(&pool.ready()), vec![1]);
    assert!(!pool.is_imported(&2));
}

#[test]
fn promoted_transaction_usurps_a_ready_one() {
    let mut pool = BasePool::new(false);
    pool.import(tx(1, 1, &[], &[b"x"])).unwrap();
    pool.import(tx(2, 9, &[b"a"], &[b"x"])).unwrap();
    let res = pool.import(tx(3, 5, &[], &[b"a"])).unwrap();
    match res {
        Imported::Ready { hash, promoted, failed, removed } => {
            assert_eq!(hash, 3);
            assert_eq!(promoted, vec![2]);
            assert!(failed.is_empty());
            assert_eq!(hashes(&removed), vec![1]);
        },
        other => panic!("unexpected {:?}", other),
    }
    assert_eq!(hashes(&pool.ready()), vec![3, 2]);
}

#[test]
fn pruned_provider_leaves_all_its_tags_consumed() {
    let mut pool = BasePool::new(false);
    pool.import(tx(1, 5, &[], &[b"a", b"b"])).unwrap();
    pool.import(tx(2, 5, &[b"b"], &[b"c"])).unwrap();
    let status = pool.prune_tags(vec![b"a".to_vec()]);
    assert_eq!(hashes(&status.pruned), vec![1]);
    assert!(status.failed.is_empty());
    assert_eq!(hashes(&pool.ready()), vec![2]);
    assert_eq!(
        pool.import(tx(3, 5, &[b"b"], &[b"d"])).unwrap(),
        Imported::Ready { hash: 3, promoted: vec![], failed: vec![], removed: vec![] }
    );
}

#[test]
fn duplicate_pool_is_independent() {
    let mut pool = BasePool::new(false);
    pool.import(tx(1, 5, &[], &[b"a"])).unwrap();
    let mut copy = pool.duplicate();
    copy.import(tx(2, 5, &[], &[b"b"])).unwrap();
    assert_eq!(pool.status().ready, 1);
    assert_eq!(copy.status().ready, 2);
    assert_eq!(copy.status().ready_bytes, 2);
}

#[test]
fn with_futures_enabled_lifts_the_rule_for_a_while() {
    let mut pool = BasePool::new(true);
    let (told, res) = pool.with_futures_enabled(|pool, reject| {
        (reject, pool.import(tx(1, 5, &[b"x"], &[b"a"])))
    });
    assert!(told);
    assert_eq!(res, Ok(Imported::Future { hash: 1 }));
    assert!(pool.rejects_future());
    assert_eq!(pool.status().future, 1);
    assert_eq!(pool.import(tx(2, 5, &[b"y"], &[b"b"])), Err(Error::RejectedFutureTransaction));
}
