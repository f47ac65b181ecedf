use futures::channel::mpsc::TryRecvError;
use std::sync::{Arc, Mutex};
use txpool::listener::{EventDispatcher, EventHandler, TransactionStatus};

#[derive(Clone, Default)]
struct Recorder {
    log: Arc<Mutex<Vec<String>>>,
}

impl Recorder {
    fn push(&self, line: String) {
        self.log.lock().unwrap().push(line);
    }

    fn lines(&self) -> Vec<String> {
        self.log.lock().unwrap().clone()
    }
}

impl EventHandler for Recorder {
    fn ready(&self, tx: u64) {
        self.push(format!("ready {}", tx));
    }

    fn future(&self, tx: u64) {
        self.push(format!("future {}", tx));
    }

    fn broadcasted(&self, tx: u64, peers: &Vec<String>) {
        self.push(format!("broadcast {} {:?}", tx, peers));
    }

    fn limits_enforced(&self, tx: u64) {
        self.push(format!("limits_enforced {}", tx));
    }

    fn usurped(&self, tx: u64, by: u64) {
        self.push(format!("usurped {} {}", tx, by));
    }

    fn dropped(&self, tx: u64) {
        self.push(format!("dropped {}", tx));
    }

    fn invalid(&self, tx: u64) {
        self.push(format!("invalid {}", tx));
    }

    fn pruned(&self, tx: u64, block: u64) {
        self.push(format!("in_block {} {}", block, tx));
    }

    fn retracted(&self, tx: u64, block: u64) {
        self.push(format!("retracted {} {}", block, tx));
    }

    fn finalized(&self, tx: u64, block: u64) {
        self.push(format!("finalized {} {}", block, tx));
    }
}

struct Silent;

impl EventHandler for Silent {}

#[test]
fn watcher_sees_events_until_the_terminal_one() {
    let mut dispatcher: EventDispatcher<Silent> = EventDispatcher::new_with_event_handler(None);
    let watcher = dispatcher.create_watcher(1);
    assert_eq!(watcher.hash(), 1);
    dispatcher.future(&1);
    dispatcher.ready(&1, None);
    dispatcher.broadcasted(&1, vec!["peer".to_string()]);
    dispatcher.invalid(&1);
    dispatcher.ready(&1, None);
    let mut stream = watcher.into_stream();
    assert_eq!(stream.try_recv(), Ok(TransactionStatus::Future));
    assert_eq!(stream.try_recv(), Ok(TransactionStatus::Ready));
    assert_eq!(stream.try_recv(), Ok(TransactionStatus::Broadcast(vec!["peer".to_string()])));
    assert_eq!(stream.try_recv(), Ok(TransactionStatus::Invalid));
    assert_eq!(stream.try_recv(), Err(TryRecvError::Closed));
    assert!(dispatcher.watched_transactions().is_empty());
}

#[test]
fn every_watcher_of_a_hash_sees_the_same() {
    let mut dispatcher: EventDispatcher<Silent> = EventDispatcher::new_with_event_handler(None);
    let mut a = dispatcher.create_watcher(1).into_stream();
    let mut b = dispatcher.create_watcher(1).into_stream();
    let mut other = dispatcher.create_watcher(2).into_stream();
    assert_eq!(dispatcher.watched_transactions(), vec![1, 2]);
    dispatcher.ready(&1, None);
    dispatcher.usurped(&1, &9);
    for stream in [&mut a, &mut b] {
        assert_eq!(stream.try_recv(), Ok(TransactionStatus::Ready));
        assert_eq!(stream.try_recv(), Ok(TransactionStatus::Usurped(9)));
        assert_eq!(stream.try_recv(), Err(TryRecvError::Closed));
    }
    assert_eq!(other.try_recv(), Err(TryRecvError::Empty));
    assert_eq!(dispatcher.watched_transactions(), vec![2]);
}

#[test]
fn ready_with_replaced_tells_the_usurped() {
    let recorder = Recorder::default();
    let mut dispatcher = EventDispatcher::new_with_event_handler(Some(recorder.clone()));
    let mut old = dispatcher.create_watcher(1).into_stream();
    dispatcher.ready(&2, Some(&1));
    assert_eq!(old.try_recv(), Ok(TransactionStatus::Usurped(2)));
    assert_eq!(recorder.lines(), vec!["ready 2", "usurped 1 2"]);
}

#[test]
fn dropped_watcher_is_let_go_on_the_next_event() {
    let mut dispatcher: EventDispatcher<Silent> = EventDispatcher::new_with_event_handler(None);
    let watcher = dispatcher.create_watcher(1);
    drop(watcher);
    assert_eq!(dispatcher.watched_transactions(), vec![1]);
    dispatcher.ready(&1, None);
    assert!(dispatcher.watched_transactions().is_empty());
}

#[test]
fn limits_enforced_reaches_watchers_as_dropped() {
    let recorder = Recorder::default();
    let mut dispatcher = EventDispatcher::new_with_event_handler(Some(recorder.clone()));
    let mut stream = dispatcher.create_watcher(1).into_stream();
    dispatcher.limits_enforced(&1);
    dispatcher.dropped(&2);
    assert_eq!(stream.try_recv(), Ok(TransactionStatus::Dropped));
    assert_eq!(stream.try_recv(), Err(TryRecvError::Closed));
    assert_eq!(recorder.lines(), vec!["limits_enforced 1", "dropped 2"]);
}

#[test]
fn finalized_block_ends_the_watchers_of_its_transactions() {
    let recorder = Recorder::default();
    let mut dispatcher = EventDispatcher::new_with_event_handler(Some(recorder.clone()));
    let mut one = dispatcher.create_watcher(1).into_stream();
    let mut two = dispatcher.create_watcher(2).into_stream();
    dispatcher.pruned(10, &1);
    dispatcher.pruned(11, &2);
    dispatcher.finalized(10);
    assert_eq!(one.try_recv(), Ok(TransactionStatus::InBlock(10)));
    assert_eq!(one.try_recv(), Ok(TransactionStatus::Finalized(10)));
    assert_eq!(one.try_recv(), Err(TryRecvError::Closed));
    assert_eq!(two.try_recv(), Ok(TransactionStatus::InBlock(11)));
    assert_eq!(two.try_recv(), Err(TryRecvError::Empty));
    dispatcher.finalized(10);
    assert_eq!(recorder.lines(), vec!["in_block 10 1", "in_block 11 2", "finalized 10 1"]);
}

#[test]
fn retracted_block_is_told_and_forgotten() {
    let recorder = Recorder::default();
    let mut dispatcher = EventDispatcher::new_with_event_handler(Some(recorder.clone()));
    let mut one = dispatcher.create_watcher(1).into_stream();
    dispatcher.pruned(10, &1);
    dispatcher.retracted(10);
    dispatcher.retracted(10);
    dispatcher.pruned(12, &1);
    assert_eq!(one.try_recv(), Ok(TransactionStatus::InBlock(10)));
    assert_eq!(one.try_recv(), Ok(TransactionStatus::Retracted(10)));
    assert_eq!(one.try_recv(), Ok(TransactionStatus::InBlock(12)));
    assert_eq!(one.try_recv(), Err(TryRecvError::Empty));
    assert_eq!(recorder.lines(), vec!["in_block 10 1", "retracted 10 1", "in_block 12 1"]);
}
