use futures::channel::mpsc::TryRecvError;
use indexmap::IndexMap;
use std::sync::{Arc, Mutex};
use txpool::base_pool::{Imported, Limit};
use txpool::error::{Error, InvalidTransaction, UnknownTransaction};
use txpool::listener::{EventDispatcher, EventHandler, TransactionStatus};
use txpool::rotator::PoolRotator;
use txpool::types::{TimedTransactionSource, Transaction, ValidTransaction};
use txpool::validated_pool::{
    fire_events, BaseSubmitOutcome, ChainApi, HashAndNumber, IsValidator, Notice, Options,
    ValidatedPool, ValidatedTransaction,
};

struct TestApi;

impl ChainApi for TestApi {
    fn hash_and_length(&self, data: &Vec<u8>) -> (u64, usize) {
        (data[0] as u64, data.len())
    }
}

#[derive(Clone, Default)]
struct Recorder {
    log: Arc<Mutex<Vec<String>>>,
}

impl Recorder {
    fn push(&self, line: String) {
        self.log.lock().unwrap().push(line);
    }

    fn lines(&self) -> Vec<String> {
        self.log.lock().unwrap().clone()
    }

    fn clear(&self) {
        self.log.lock().unwrap().clear();
    }
}

impl EventHandler for Recorder {
    fn ready(&self, tx: u64) {
        self.push(format!("ready {}", tx));
    }

    fn future(&self, tx: u64) {
        self.push(format!("future {}", tx));
    }

    fn broadcasted(&self, tx: u64, peers: &Vec<String>) {
        self.push(format!("broadcast {} {}", tx, peers.join(",")));
    }

    fn limits_enforced(&self, tx: u64) {
        self.push(format!("limits_enforced {}", tx));
    }

    fn usurped(&self, tx: u64, by: u64) {
        self.push(format!("usurped {} {}", tx, by));
    }

    fn dropped(&self, tx: u64) {
        self.push(format!("dropped {}", tx));
    }

    fn invalid(&self, tx: u64) {
        self.push(format!("invalid {}", tx));
    }

    fn pruned(&self, tx: u64, block: u64) {
        self.push(format!("in_block {} {}", block, tx));
    }

    fn retracted(&self, tx: u64, block: u64) {
        self.push(format!("retracted {} {}", block, tx));
    }

    fn finalized(&self, tx: u64, block: u64) {
        self.push(format!("finalized {} {}", block, tx));
    }
}

fn tx(hash: u64, priority: u64, requires: &[&[u8]], provides: &[&[u8]]) -> Transaction {
    Transaction {
        data: vec![hash as u8],
        bytes: 1,
        hash,
        priority,
        valid_till: 1000,
        requires: requires.iter().map(|t| t.to_vec()).collect(),
        provides: provides.iter().map(|t| t.to_vec()).collect(),
        propagate: true,
        source: TimedTransactionSource::new_external(0),
    }
}

fn valid(hash: u64, priority: u64, requires: &[&[u8]], provides: &[&[u8]]) -> ValidatedTransaction {
    ValidatedTransaction::Valid(tx(hash, priority, requires, provides))
}

fn pool_with(options: Options) -> (ValidatedPool<TestApi, Recorder>, Recorder) {
    let recorder = Recorder::default();
    let pool = ValidatedPool::new_with_event_handler(
        options,
        IsValidator::from(true),
        Arc::new(TestApi),
        recorder.clone(),
    );
    (pool, recorder)
}

fn pool() -> (ValidatedPool<TestApi, Recorder>, Recorder) {
    pool_with(Options::default())
}

fn ready_hashes(pool: &ValidatedPool<TestApi, Recorder>) -> Vec<u64> {
    pool.ready().iter().map(|t| t.hash).collect()
}

fn outcome(r: &Result<BaseSubmitOutcome<txpool::watcher::Watcher>, Error>) -> Result<(u64, Option<u64>), Error> {
    match r {
        Ok(o) => Ok((o.hash(), o.priority())),
        Err(e) => Err(*e),
    }
}

#[test]
fn default_options_are_the_usual_limits() {
    let options = Options::default();
    assert_eq!(options.ready, Limit { count: 8192, total_bytes: 20 * 1024 * 1024 });
    assert_eq!(options.future, Limit { count: 512, total_bytes: 1024 * 1024 });
    assert!(!options.reject_future_transactions);
    assert_eq!(options.ban_time, 30 * 60 * 1000);
    assert_eq!(options.total_count(), 8192 + 512);
}

#[test]
fn valid_at_builds_the_record() {
    let verdict = ValidatedTransaction::valid_at(
        10,
        7,
        TimedTransactionSource::new_local(3),
        vec![7, 7],
        2,
        ValidTransaction {
            priority: 9,
            requires: vec![b"a".to_vec()],
            provides: vec![b"b".to_vec()],
            longevity: 5,
            propagate: false,
        },
    );
    assert_eq!(verdict.priority(), Some(9));
    match verdict {
        ValidatedTransaction::Valid(t) => {
            assert_eq!(t.hash, 7);
            assert_eq!(t.bytes, 2);
            assert_eq!(t.data, vec![7, 7]);
            assert_eq!(t.valid_till, 15);
            assert_eq!(t.requires, vec![b"a".to_vec()]);
            assert_eq!(t.provides, vec![b"b".to_vec()]);
            assert!(!t.propagate);
            assert_eq!(t.source, TimedTransactionSource::new_local(3));
        },
        other => panic!("unexpected {:?}", other),
    }
}

#[test]
fn valid_at_saturates_the_deadline() {
    let verdict = ValidatedTransaction::valid_at(
        u64::MAX - 1,
        7,
        TimedTransactionSource::new_external(0),
        vec![7],
        1,
        ValidTransaction {
            priority: 1,
            requires: vec![],
            provides: vec![],
            longevity: 5,
            propagate: true,
        },
    );
    match verdict {
        ValidatedTransaction::Valid(t) => assert_eq!(t.valid_till, u64::MAX),
        other => panic!("unexpected {:?}", other),
    }
    assert_eq!(
        ValidatedTransaction::Invalid(1, Error::InvalidTransaction(InvalidTransaction::Stale))
            .priority(),
        None
    );
}

#[test]
fn outcome_carries_hash_priority_and_watcher() {
    let mut outcome: BaseSubmitOutcome<u8> = BaseSubmitOutcome::new(4, Some(2)).with_watcher(9);
    assert_eq!(outcome.hash(), 4);
    assert_eq!(outcome.priority(), Some(2));
    assert_eq!(outcome.expect_watcher(), 9);
}

#[test]
fn promotion_via_prune() {
    let (mut pool, recorder) = pool();
    let results = pool.submit(vec![valid(1, 10, &[b"a"], &[b"b"])], 0);
    assert_eq!(outcome(&results[0]), Ok((1, Some(10))));
    assert_eq!(pool.status().future, 1);
    assert_eq!(recorder.lines(), vec!["future 1"]);
    let status = pool.prune_tags(vec![b"a".to_vec()]);
    assert_eq!(
        status.promoted,
        vec![Imported::Ready { hash: 1, promoted: vec![], failed: vec![], removed: vec![] }]
    );
    assert_eq!(recorder.lines(), vec!["future 1", "ready 1"]);
    assert_eq!(pool.status().ready, 1);
    assert_eq!(pool.status().future, 0);
}

#[test]
fn usurpation() {
    let (mut pool, recorder) = pool();
    let mut watcher = pool.create_watcher(1).into_stream();
    pool.submit(vec![valid(1, 5, &[], &[b"x"])], 0);
    let results = pool.submit(vec![valid(2, 10, &[], &[b"x"])], 0);
    assert_eq!(outcome(&results[0]), Ok((2, Some(10))));
    assert_eq!(recorder.lines(), vec!["ready 1", "ready 2", "usurped 1 2"]);
    assert_eq!(pool.status().ready, 1);
    assert_eq!(ready_hashes(&pool), vec![2]);
    assert_eq!(watcher.try_recv(), Ok(TransactionStatus::Ready));
    assert_eq!(watcher.try_recv(), Ok(TransactionStatus::Usurped(2)));
    assert_eq!(watcher.try_recv(), Err(TryRecvError::Closed));
}

#[test]
fn low_priority_rejection() {
    let (mut pool, recorder) = pool();
    pool.submit(vec![valid(2, 10, &[], &[b"x"])], 0);
    let results = pool.submit(vec![valid(1, 5, &[], &[b"x"])], 0);
    assert_eq!(outcome(&results[0]), Err(Error::TooLowPriority { old: 10, new: 5 }));
    assert!(!pool.is_banned(0, &1));
    assert_eq!(recorder.lines(), vec!["ready 2"]);
    assert_eq!(ready_hashes(&pool), vec![2]);
}

#[test]
fn immediately_dropped() {
    let mut options = Options::default();
    options.ready.count = 2;
    let (mut pool, recorder) = pool_with(options);
    let mut watcher = pool.create_watcher(1).into_stream();
    let results = pool.submit(
        vec![valid(1, 1, &[], &[b"a"]), valid(2, 2, &[], &[b"b"]), valid(3, 3, &[], &[b"c"])],
        7,
    );
    assert_eq!(results.len(), 3);
    assert_eq!(outcome(&results[0]), Err(Error::ImmediatelyDropped));
    assert_eq!(outcome(&results[1]), Ok((2, Some(2))));
    assert_eq!(outcome(&results[2]), Ok((3, Some(3))));
    assert_eq!(recorder.lines(), vec!["ready 1", "ready 2", "ready 3", "limits_enforced 1"]);
    assert_eq!(ready_hashes(&pool), vec![3, 2]);
    assert!(pool.is_banned(7, &1));
    assert_eq!(watcher.try_recv(), Ok(TransactionStatus::Ready));
    assert_eq!(watcher.try_recv(), Ok(TransactionStatus::Dropped));
    assert_eq!(watcher.try_recv(), Err(TryRecvError::Closed));
}

#[test]
fn stale_clearance() {
    let mut options = Options::default();
    options.ban_time = 50;
    let (mut pool, recorder) = pool_with(options);
    let mut stale = tx(1, 5, &[], &[b"a"]);
    stale.valid_till = 100;
    let mut fresh = tx(2, 5, &[], &[b"b"]);
    fresh.valid_till = 200;
    let mut waiting = tx(3, 5, &[b"zz"], &[b"c"]);
    waiting.valid_till = 150;
    pool.submit(
        vec![
            ValidatedTransaction::Valid(stale),
            ValidatedTransaction::Valid(fresh),
            ValidatedTransaction::Valid(waiting),
        ],
        0,
    );
    recorder.clear();
    pool.clear_stale(&HashAndNumber { number: 200, hash: 77 }, 1000);
    assert_eq!(recorder.lines(), vec!["invalid 1", "invalid 3"]);
    assert_eq!(ready_hashes(&pool), vec![2]);
    assert_eq!(pool.status().future, 0);
    assert!(pool.is_banned(1000, &1));
    assert!(pool.is_banned(1049, &3));
    assert!(!pool.is_banned(1050, &1));
    assert!(!pool.is_banned(1000, &2));
    assert_eq!(pool.check_is_known(&1, false, 1000), Err(Error::TemporarilyBanned));
    assert_eq!(pool.check_is_known(&1, true, 1000), Ok(()));
    assert_eq!(pool.check_is_known(&2, false, 1000), Err(Error::AlreadyImported(2)));
}

#[test]
fn clear_stale_forgets_ended_bans() {
    let mut options = Options::default();
    options.ban_time = 50;
    let (mut pool, _) = pool_with(options);
    pool.ban(0, &[9]);
    assert!(pool.is_banned(10, &9));
    pool.clear_stale(&HashAndNumber { number: 1, hash: 1 }, 49);
    assert!(pool.is_banned(49, &9));
    pool.clear_stale(&HashAndNumber { number: 1, hash: 1 }, 50);
    assert!(!pool.is_banned(0, &9));
}

#[test]
fn reorg_resubmission() {
    let (mut pool, recorder) = pool();
    pool.submit(vec![valid(1, 5, &[], &[b"a"]), valid(2, 5, &[b"a"], &[b"b"])], 0);
    recorder.clear();
    let mut updated = IndexMap::new();
    updated.insert(1, valid(1, 6, &[], &[b"a"]));
    updated.insert(2, valid(2, 7, &[b"a"], &[b"b"]));
    pool.resubmit(updated);
    assert!(recorder.lines().is_empty());
    assert_eq!(ready_hashes(&pool), vec![1, 2]);
    assert_eq!(pool.ready_by_hash(&1).map(|t| t.priority), Some(6));
    assert_eq!(pool.ready_by_hash(&2).map(|t| t.priority), Some(7));
    assert_eq!(pool.status().future, 0);
}

#[test]
fn resubmission_in_the_wrong_order_still_works() {
    let mut options = Options::default();
    options.reject_future_transactions = true;
    let (mut pool, recorder) = pool_with(options);
    pool.submit(vec![valid(1, 5, &[], &[b"a"]), valid(2, 5, &[b"a"], &[b"b"])], 0);
    recorder.clear();
    let mut updated = IndexMap::new();
    updated.insert(2, valid(2, 7, &[b"a"], &[b"b"]));
    updated.insert(1, valid(1, 6, &[], &[b"a"]));
    pool.resubmit(updated);
    assert!(recorder.lines().is_empty());
    assert_eq!(ready_hashes(&pool), vec![1, 2]);
    assert_eq!(pool.ready_by_hash(&2).map(|t| t.priority), Some(7));
    let results = pool.submit(vec![valid(3, 5, &[b"q"], &[b"c"])], 0);
    assert_eq!(outcome(&results[0]), Err(Error::RejectedFutureTransaction));
}

#[test]
fn resubmission_with_an_invalid_verdict() {
    let (mut pool, recorder) = pool();
    pool.submit(
        vec![valid(1, 5, &[], &[b"a"]), valid(2, 5, &[b"a"], &[b"b"]), valid(3, 5, &[], &[b"c"])],
        0,
    );
    recorder.clear();
    let mut updated = IndexMap::new();
    updated.insert(
        1,
        ValidatedTransaction::Invalid(1, Error::InvalidTransaction(InvalidTransaction::Stale)),
    );
    updated.insert(8, valid(8, 5, &[], &[b"h"]));
    pool.resubmit(updated);
    assert_eq!(recorder.lines(), vec!["invalid 1", "future 2"]);
    assert_eq!(ready_hashes(&pool), vec![3]);
    assert_eq!(pool.futures(), vec![(2, vec![2])]);
    assert!(!pool.is_banned(0, &1));
}

#[test]
fn resubmission_drops_future_where_the_pool_rejects_it() {
    let mut options = Options::default();
    options.reject_future_transactions = true;
    let (mut pool, recorder) = pool_with(options);
    pool.submit(vec![valid(1, 5, &[], &[b"a"]), valid(2, 5, &[b"a"], &[b"b"])], 0);
    recorder.clear();
    let mut updated = IndexMap::new();
    updated.insert(
        1,
        ValidatedTransaction::Unknown(
            1,
            Error::UnknownTransaction(UnknownTransaction::CannotLookup),
        ),
    );
    pool.resubmit(updated);
    assert_eq!(recorder.lines(), vec!["invalid 1", "dropped 2"]);
    assert!(ready_hashes(&pool).is_empty());
    assert_eq!(pool.status().future, 0);
}

#[test]
fn non_propagable_needs_a_validator() {
    let recorder = Recorder::default();
    let mut pool = ValidatedPool::new_with_event_handler(
        Options::default(),
        IsValidator::from(false),
        Arc::new(TestApi),
        recorder.clone(),
    );
    let mut quiet = tx(1, 5, &[], &[b"a"]);
    quiet.propagate = false;
    let results = pool.submit(vec![ValidatedTransaction::Valid(quiet.clone())], 0);
    assert_eq!(outcome(&results[0]), Err(Error::Unactionable));
    assert_eq!(pool.status().ready, 0);
    pool.set_is_validator(IsValidator::from(true));
    let results = pool.submit(vec![ValidatedTransaction::Valid(quiet)], 0);
    assert_eq!(outcome(&results[0]), Ok((1, Some(5))));
}

#[test]
fn invalid_verdict_bans_and_unknown_does_not() {
    let (mut pool, recorder) = pool();
    let invalid = Error::InvalidTransaction(InvalidTransaction::BadProof);
    let unknown = Error::UnknownTransaction(UnknownTransaction::NoUnsignedValidator);
    let mut watcher = pool.create_watcher(2).into_stream();
    let results = pool.submit(
        vec![ValidatedTransaction::Invalid(1, invalid), ValidatedTransaction::Unknown(2, unknown)],
        5,
    );
    assert_eq!(outcome(&results[0]), Err(invalid));
    assert_eq!(outcome(&results[1]), Err(unknown));
    assert!(pool.is_banned(5, &1));
    assert!(!pool.is_banned(5, &2));
    assert_eq!(recorder.lines(), vec!["invalid 2"]);
    assert_eq!(watcher.try_recv(), Ok(TransactionStatus::Invalid));
    assert_eq!(watcher.try_recv(), Err(TryRecvError::Closed));
}

#[test]
fn submit_and_watch_follows_the_transaction() {
    let (mut pool, _) = pool();
    let mut outcome = pool.submit_and_watch(valid(1, 5, &[b"a"], &[b"b"]), 0).unwrap();
    assert_eq!(outcome.hash(), 1);
    assert_eq!(outcome.priority(), Some(5));
    let watcher = outcome.expect_watcher();
    assert_eq!(watcher.hash(), 1);
    assert_eq!(pool.watched_transactions(), vec![1]);
    pool.prune_tags(vec![b"a".to_vec()]);
    pool.remove_invalid(&[1], 0);
    let mut stream = watcher.into_stream();
    assert_eq!(stream.try_recv(), Ok(TransactionStatus::Future));
    assert_eq!(stream.try_recv(), Ok(TransactionStatus::Ready));
    assert_eq!(stream.try_recv(), Ok(TransactionStatus::Invalid));
    assert_eq!(stream.try_recv(), Err(TryRecvError::Closed));
    assert!(pool.watched_transactions().is_empty());
}

#[test]
fn submit_and_watch_of_bad_verdicts() {
    let (mut pool, recorder) = pool();
    let invalid = Error::InvalidTransaction(InvalidTransaction::Payment);
    let unknown = Error::UnknownTransaction(UnknownTransaction::Custom(3));
    assert_eq!(
        pool.submit_and_watch(ValidatedTransaction::Invalid(1, invalid), 2).err(),
        Some(invalid)
    );
    assert!(pool.is_banned(2, &1));
    assert!(recorder.lines().is_empty());
    assert!(pool.watched_transactions().is_empty());
    let mut watcher = pool.create_watcher(2).into_stream();
    assert_eq!(
        pool.submit_and_watch(ValidatedTransaction::Unknown(2, unknown), 2).err(),
        Some(unknown)
    );
    assert!(!pool.is_banned(2, &2));
    assert_eq!(recorder.lines(), vec!["invalid 2"]);
    assert_eq!(watcher.try_recv(), Ok(TransactionStatus::Invalid));
    assert_eq!(watcher.try_recv(), Err(TryRecvError::Closed));
    assert!(pool.watched_transactions().is_empty());
    assert_eq!(pool.status().ready + pool.status().future, 0);
}

#[test]
fn watcher_is_made_before_the_import() {
    let (mut pool, _) = pool();
    let mut outcome = pool.submit_and_watch(valid(1, 5, &[], &[b"a"]), 0).unwrap();
    let mut ready = outcome.expect_watcher().into_stream();
    assert_eq!(ready.try_recv(), Ok(TransactionStatus::Ready));
    let mut outcome = pool.submit_and_watch(valid(2, 5, &[b"zz"], &[b"b"]), 0).unwrap();
    let mut waiting = outcome.expect_watcher().into_stream();
    assert_eq!(waiting.try_recv(), Ok(TransactionStatus::Future));
    assert_eq!(waiting.try_recv(), Err(TryRecvError::Empty));
}

#[test]
fn full_streams_stay_and_closed_ones_go() {
    let (mut pool, _) = pool();
    let mut open = pool.import_notification_stream();
    let mut full = pool.import_notification_stream();
    let closed = pool.import_notification_stream();
    let mut last = pool.import_notification_stream();
    drop(closed);
    let mut batch = vec![];
    for i in 0..1026u64 {
        batch.push(valid(i + 1, 5, &[], &[&(i + 1).to_be_bytes()]));
    }
    pool.submit(batch, 0);
    let mut seen = 0;
    while open.try_recv().is_ok() {
        seen += 1;
    }
    assert_eq!(seen, 1025);
    let mut seen_last = 0;
    while last.try_recv().is_ok() {
        seen_last += 1;
    }
    assert_eq!(seen_last, 1025);
    pool.submit(vec![valid(5000, 5, &[], &[b"later"])], 0);
    assert_eq!(open.try_recv(), Ok(5000));
    assert_eq!(last.try_recv(), Ok(5000));
    let mut seen_full = 0;
    let mut first = None;
    while let Ok(hash) = full.try_recv() {
        if first.is_none() {
            first = Some(hash);
        }
        seen_full += 1;
    }
    assert_eq!(first, Some(1));
    assert_eq!(seen_full, 1025);
    pool.submit(vec![valid(5001, 5, &[], &[b"latest"])], 0);
    assert_eq!(full.try_recv(), Ok(5001));
    assert_eq!(open.try_recv(), Ok(5001));
}

#[test]
fn fits_tells_whether_a_batch_has_room() {
    let mut options = Options::default();
    options.ready.total_bytes = usize::MAX;
    let (mut pool, _) = pool_with(options);
    let mut big = tx(1, 5, &[], &[b"a"]);
    big.bytes = usize::MAX - 3;
    assert!(pool.fits(&vec![ValidatedTransaction::Valid(big.clone())]));
    pool.submit(vec![ValidatedTransaction::Valid(big)], 0);
    let mut three = tx(2, 5, &[], &[b"b"]);
    three.bytes = 3;
    let mut four = tx(3, 5, &[], &[b"c"]);
    four.bytes = 4;
    assert!(pool.fits(&vec![ValidatedTransaction::Valid(three.clone())]));
    assert!(!pool.fits(&vec![ValidatedTransaction::Valid(four)]));
    assert!(!pool.fits(&vec![
        ValidatedTransaction::Valid(three.clone()),
        ValidatedTransaction::Invalid(9, Error::InvalidTransaction(InvalidTransaction::Call)),
        ValidatedTransaction::Valid(three),
    ]));
}

#[test]
fn import_notifications_name_ready_transactions() {
    let (mut pool, _) = pool();
    let mut stream = pool.import_notification_stream();
    let gone = pool.import_notification_stream();
    drop(gone);
    pool.submit(vec![valid(1, 5, &[], &[b"a"]), valid(2, 5, &[b"zz"], &[b"b"])], 0);
    pool.submit(vec![valid(3, 5, &[], &[b"c"])], 0);
    assert_eq!(stream.try_recv(), Ok(1));
    assert_eq!(stream.try_recv(), Ok(3));
    assert_eq!(stream.try_recv(), Err(TryRecvError::Empty));
}

#[test]
fn prune_tags_tells_promotions_and_drops() {
    let (mut pool, recorder) = pool();
    pool.submit(
        vec![
            valid(1, 5, &[], &[b"a"]),
            valid(2, 5, &[b"n"], &[b"b"]),
            valid(3, 5, &[b"m"], &[b"a"]),
        ],
        0,
    );
    recorder.clear();
    let status = pool.prune_tags(vec![b"a".to_vec(), b"n".to_vec()]);
    assert_eq!(status.pruned.iter().map(|t| t.hash).collect::<Vec<_>>(), vec![1]);
    assert_eq!(status.failed, vec![3]);
    assert_eq!(recorder.lines(), vec!["ready 2", "dropped 3"]);
    recorder.clear();
    let again = pool.prune_tags(vec![b"a".to_vec(), b"n".to_vec()]);
    assert!(again.pruned.is_empty() && again.failed.is_empty() && again.promoted.is_empty());
    assert!(recorder.lines().is_empty());
}

#[test]
fn remove_subtree_bans_only_the_roots() {
    let (mut pool, recorder) = pool();
    pool.submit(vec![valid(1, 5, &[], &[b"a"]), valid(2, 5, &[b"a"], &[b"b"])], 0);
    recorder.clear();
    let removed = pool.remove_subtree(&[1], true, Notice::Dropped, 3);
    assert_eq!(removed.iter().map(|t| t.hash).collect::<Vec<_>>(), vec![1, 2]);
    assert!(pool.is_banned(3, &1));
    assert!(!pool.is_banned(3, &2));
    assert_eq!(recorder.lines(), vec!["dropped 1", "dropped 2"]);
    assert!(pool.remove_invalid(&[], 3).is_empty());
    pool.submit(vec![valid(4, 5, &[], &[b"d"])], 0);
    let removed = pool.remove_subtree(&[4], false, Notice::Usurped(9), 3);
    assert_eq!(removed.len(), 1);
    assert!(!pool.is_banned(3, &4));
}

#[test]
fn fire_pruned_tells_each_hash_once() {
    let (mut pool, recorder) = pool();
    let mut watcher = pool.create_watcher(1).into_stream();
    pool.fire_pruned(&HashAndNumber { number: 1, hash: 50 }, &vec![1, 2, 1, 2, 3]);
    assert_eq!(recorder.lines(), vec!["in_block 50 1", "in_block 50 2", "in_block 50 3"]);
    assert_eq!(watcher.try_recv(), Ok(TransactionStatus::InBlock(50)));
    assert_eq!(watcher.try_recv(), Err(TryRecvError::Empty));
    recorder.clear();
    assert_eq!(pool.on_block_finalized(50), Ok(()));
    assert_eq!(recorder.lines(), vec!["finalized 50 1", "finalized 50 2", "finalized 50 3"]);
    assert_eq!(watcher.try_recv(), Ok(TransactionStatus::Finalized(50)));
    assert_eq!(watcher.try_recv(), Err(TryRecvError::Closed));
}

#[test]
fn retracted_block_is_told() {
    let (mut pool, recorder) = pool();
    pool.fire_pruned(&HashAndNumber { number: 1, hash: 50 }, &vec![1]);
    pool.fire_pruned(&HashAndNumber { number: 1, hash: 51 }, &vec![2]);
    recorder.clear();
    pool.on_block_retracted(51);
    assert_eq!(recorder.lines(), vec!["retracted 51 2"]);
}

#[test]
fn resubmit_pruned_confirms_invalid_and_known() {
    let (mut pool, recorder) = pool();
    let mut old = tx(4, 5, &[], &[b"d"]);
    old.valid_till = 5;
    pool.submit(vec![ValidatedTransaction::Valid(old)], 0);
    recorder.clear();
    let stale = Error::InvalidTransaction(InvalidTransaction::Stale);
    pool.resubmit_pruned(
        &HashAndNumber { number: 10, hash: 60 },
        vec![9, 1],
        vec![1, 2, 3],
        vec![
            ValidatedTransaction::Invalid(1, stale),
            valid(2, 5, &[], &[b"b"]),
            ValidatedTransaction::Unknown(
                3,
                Error::UnknownTransaction(UnknownTransaction::CannotLookup),
            ),
        ],
        100,
    );
    assert_eq!(
        recorder.lines(),
        vec!["ready 2", "invalid 3", "in_block 60 1", "in_block 60 9", "invalid 4"]
    );
    assert_eq!(ready_hashes(&pool), vec![2]);
    assert!(pool.is_banned(100, &1));
    assert!(pool.is_banned(100, &4));
}

#[test]
fn broadcasts_are_told() {
    let (mut pool, recorder) = pool();
    let mut watcher = pool.create_watcher(1).into_stream();
    pool.on_broadcasted(vec![
        (1, vec!["a".to_string(), "b".to_string()]),
        (2, vec!["c".to_string()]),
    ]);
    assert_eq!(recorder.lines(), vec!["broadcast 1 a,b", "broadcast 2 c"]);
    assert_eq!(
        watcher.try_recv(),
        Ok(TransactionStatus::Broadcast(vec!["a".to_string(), "b".to_string()]))
    );
}

#[test]
fn cloned_pool_can_retrigger_notifications() {
    let (mut pool, _) = pool();
    pool.submit(
        vec![valid(1, 5, &[], &[b"a"]), valid(2, 9, &[], &[b"b"]), valid(3, 5, &[b"q"], &[b"c"])],
        0,
    );
    pool.ban(0, &[8]);
    let recorder = Recorder::default();
    let mut copy = pool.deep_clone_with_event_handler(recorder.clone());
    assert_eq!(copy.status(), pool.status());
    assert!(copy.is_banned(0, &8));
    assert!(recorder.lines().is_empty());
    copy.retrigger_notifications();
    assert_eq!(recorder.lines(), vec!["ready 2", "ready 1", "future 3"]);
    let plain = pool.clone();
    assert_eq!(plain.status(), pool.status());
    assert_eq!(plain.options(), pool.options());
    assert_eq!(plain.api().hash_and_length(&vec![5, 5]), (5, 2));
}

#[test]
fn extrinsics_tags_reports_provided_tags() {
    let (mut pool, _) = pool();
    pool.submit(vec![valid(1, 5, &[], &[b"a", b"b"]), valid(2, 5, &[b"q"], &[b"c"])], 0);
    assert_eq!(
        pool.extrinsics_tags(&[2, 5, 1]),
        vec![Some(vec![b"c".to_vec()]), None, Some(vec![b"a".to_vec(), b"b".to_vec()])]
    );
}

#[test]
fn enforce_limits_without_excess_does_nothing() {
    let (mut pool, recorder) = pool();
    pool.submit(vec![valid(1, 5, &[], &[b"a"])], 0);
    recorder.clear();
    assert!(pool.enforce_limits(0).is_empty());
    assert!(recorder.lines().is_empty());
}

#[test]
fn fire_events_tells_in_order() {
    let recorder = Recorder::default();
    let mut dispatcher = EventDispatcher::new_with_event_handler(Some(recorder.clone()));
    fire_events(
        &mut dispatcher,
        &Imported::Ready {
            hash: 1,
            promoted: vec![5, 6],
            failed: vec![3],
            removed: vec![tx(4, 1, &[], &[])],
        },
    );
    fire_events(&mut dispatcher, &Imported::Future { hash: 7 });
    assert_eq!(
        recorder.lines(),
        vec!["ready 1", "invalid 3", "usurped 4 1", "ready 5", "ready 6", "future 7"]
    );
}

#[test]
fn staticly_sized_rotator_and_plain_constructor() {
    let mut pool: ValidatedPool<TestApi, Recorder> = ValidatedPool::new_with_staticly_sized_rotator(
        Options::default(),
        IsValidator::from(true),
        Arc::new(TestApi),
    );
    pool.submit(vec![valid(1, 5, &[], &[b"a"])], 0);
    assert_eq!(pool.status().ready, 1);
    let mut options = Options::default();
    options.ready.count = 1;
    options.future.count = 0;
    let mut small: ValidatedPool<TestApi, Recorder> =
        ValidatedPool::new(options, IsValidator::from(true), Arc::new(TestApi));
    small.ban(0, &[1, 2, 3]);
    assert!(!small.is_banned(0, &1));
    assert!(!small.is_banned(0, &2));
    assert!(small.is_banned(0, &3));
}

#[test]
fn try_resubmit_refuses_what_does_not_fit() {
    let mut options = Options::default();
    options.ready.total_bytes = usize::MAX;
    let (mut pool, recorder) = pool_with(options);
    let mut big = tx(1, 5, &[], &[b"a"]);
    big.bytes = usize::MAX - 3;
    pool.submit(vec![ValidatedTransaction::Valid(big)], 0);
    recorder.clear();
    let mut updated = IndexMap::new();
    let mut more = tx(1, 6, &[], &[b"a"]);
    more.bytes = 4;
    updated.insert(1, ValidatedTransaction::Valid(more));
    assert!(!pool.try_resubmit(updated));
    assert_eq!(pool.ready_by_hash(&1).map(|t| t.priority), Some(5));
    assert!(recorder.lines().is_empty());
    let mut updated = IndexMap::new();
    updated.insert(
        7,
        ValidatedTransaction::Invalid(7, Error::InvalidTransaction(InvalidTransaction::Call)),
    );
    let mut fits = tx(1, 6, &[], &[b"a"]);
    fits.bytes = 3;
    updated.insert(1, ValidatedTransaction::Valid(fits));
    assert!(pool.try_resubmit(updated));
    assert_eq!(pool.ready_by_hash(&1).map(|t| t.priority), Some(6));
    assert_eq!(pool.status().ready_bytes, 3);
    assert!(recorder.lines().is_empty());
}

#[test]
fn resubmission_tells_what_changed() {
    let (mut pool, recorder) = pool();
    pool.submit(
        vec![valid(1, 5, &[], &[b"a"]), valid(2, 5, &[b"a"], &[b"b"]), valid(3, 9, &[b"n"], &[b"c"])],
        0,
    );
    recorder.clear();
    let mut updated = IndexMap::new();
    updated.insert(1, valid(1, 5, &[], &[b"a", b"n"]));
    pool.resubmit(updated);
    assert_eq!(recorder.lines(), vec!["ready 3"]);
    assert_eq!(ready_hashes(&pool), vec![1, 3, 2]);
}

#[test]
fn no_event_reaches_a_watcher_after_the_terminal_one() {
    let (mut pool, _) = pool();
    let mut first = pool.create_watcher(1).into_stream();
    pool.submit(vec![valid(1, 5, &[], &[b"a"])], 0);
    pool.remove_invalid(&[1], 0);
    assert!(pool.watched_transactions().is_empty());
    pool.submit(vec![valid(1, 5, &[], &[b"a"])], 1_800_000);
    pool.on_broadcasted(vec![(1, vec!["p".to_string()])]);
    assert_eq!(first.try_recv(), Ok(TransactionStatus::Ready));
    assert_eq!(first.try_recv(), Ok(TransactionStatus::Invalid));
    assert_eq!(first.try_recv(), Err(TryRecvError::Closed));
}

#[test]
fn banned_transaction_can_still_be_submitted() {
    let (mut pool, _) = pool();
    pool.ban(0, &[1]);
    assert_eq!(pool.check_is_known(&1, false, 0), Err(Error::TemporarilyBanned));
    let results = pool.submit(vec![valid(1, 5, &[], &[b"a"])], 0);
    assert_eq!(outcome(&results[0]), Ok((1, Some(5))));
}

#[test]
fn old_transactions_are_stale_by_age() {
    let recorder = Recorder::default();
    let mut pool = ValidatedPool::new_with_rotator(
        Options::default(),
        IsValidator::from(true),
        Arc::new(TestApi),
        PoolRotator::new_with_expected_size(10, 100).with_hard_age(500),
        Some(recorder.clone()),
    );
    let mut early = tx(1, 5, &[], &[b"a"]);
    early.source = TimedTransactionSource::new_local(100);
    let mut late = tx(2, 5, &[], &[b"b"]);
    late.source = TimedTransactionSource::new_local(400);
    pool.submit(vec![ValidatedTransaction::Valid(early), ValidatedTransaction::Valid(late)], 400);
    recorder.clear();
    pool.clear_stale(&HashAndNumber { number: 1, hash: 1 }, 600);
    assert!(recorder.lines().is_empty());
    pool.clear_stale(&HashAndNumber { number: 1, hash: 1 }, 601);
    assert_eq!(recorder.lines(), vec!["invalid 1"]);
    assert_eq!(ready_hashes(&pool), vec![2]);
    assert!(pool.is_banned(601, &1));
    assert!(!pool.is_banned(611, &1));
}

#[test]
fn eviction_takes_dependents_along() {
    let mut options = Options::default();
    options.ready.count = 2;
    let (mut pool, recorder) = pool_with(options);
    let results = pool.submit(
        vec![valid(1, 1, &[], &[b"a"]), valid(2, 9, &[b"a"], &[b"b"]), valid(3, 5, &[], &[b"c"])],
        0,
    );
    assert_eq!(outcome(&results[0]), Err(Error::ImmediatelyDropped));
    assert_eq!(outcome(&results[1]), Err(Error::ImmediatelyDropped));
    assert_eq!(outcome(&results[2]), Ok((3, Some(5))));
    assert_eq!(
        recorder.lines(),
        vec!["ready 1", "ready 2", "ready 3", "limits_enforced 1", "limits_enforced 2"]
    );
    assert_eq!(ready_hashes(&pool), vec![3]);
}

#[test]
fn resubmission_requeues_what_it_removed_from_the_future() {
    let (mut pool, recorder) = pool();
    pool.submit(vec![valid(1, 5, &[b"n"], &[b"a"]), valid(2, 5, &[], &[b"b"])], 0);
    recorder.clear();
    let mut updated = IndexMap::new();
    updated.insert(1, valid(1, 5, &[], &[b"a"]));
    pool.resubmit(updated);
    assert!(recorder.lines().is_empty());
    assert_eq!(ready_hashes(&pool), vec![1, 2]);
    assert_eq!(pool.status().future, 0);
}
