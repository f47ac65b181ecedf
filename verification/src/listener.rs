//! The event dispatcher: who watches which transaction, and which events the
//! pool has dispatched.

use vstd::prelude::*;
use futures::channel::mpsc::UnboundedSender;
use crate::channel::{offer, open_watch_channel};
use crate::facts::{
    lemma_filter_empty, lemma_filter_step, lemma_push_drop_last, lemma_take_all, lemma_take_step,
};
use crate::types::{hash_in, BlockHash, TxHash};
use crate::watcher::Watcher;

verus! {

/// What a watcher is told of its transaction.
#[derive(Debug, Clone, PartialEq, Eq)]
pub enum TransactionStatus {
    /// The transaction waits in the future partition.
    Future,
    /// The transaction is ready.
    Ready,
    /// The transaction was broadcast to the named peers.
    Broadcast(Vec<String>),
    /// The transaction is in the block with this hash.
    InBlock(BlockHash),
    /// The block with this hash, which held the transaction, was retracted.
    Retracted(BlockHash),
    /// The block with this hash, which holds the transaction, is final.
    Finalized(BlockHash),
    /// The transaction was replaced by the one with this hash.
    Usurped(TxHash),
    /// The transaction was dropped from the pool.
    Dropped,
    /// The transaction is invalid.
    Invalid,
}

/// Mathematical value of what a watcher is told.
pub enum StatusView {
    Future,
    Ready,
    Broadcast(Seq<Seq<char>>),
    InBlock(BlockHash),
    Retracted(BlockHash),
    Finalized(BlockHash),
    Usurped(TxHash),
    Dropped,
    Invalid,
}

impl View for TransactionStatus {
    type V = StatusView;

    open spec fn view(&self) -> StatusView {
        match *self {
            TransactionStatus::Future => StatusView::Future,
            TransactionStatus::Ready => StatusView::Ready,
            TransactionStatus::Broadcast(peers) => StatusView::Broadcast(peer_names(peers@)),
            TransactionStatus::InBlock(block) => StatusView::InBlock(block),
            TransactionStatus::Retracted(block) => StatusView::Retracted(block),
            TransactionStatus::Finalized(block) => StatusView::Finalized(block),
            TransactionStatus::Usurped(by) => StatusView::Usurped(by),
            TransactionStatus::Dropped => StatusView::Dropped,
            TransactionStatus::Invalid => StatusView::Invalid,
        }
    }
}

/// An event of the life of a transaction, as the pool dispatches it.
pub enum PoolEvent {
    /// The transaction entered the future partition.
    Future(TxHash),
    /// The transaction became ready.
    Ready(TxHash),
    /// The transaction was broadcast to the named peers.
    Broadcast(TxHash, Seq<Seq<char>>),
    /// The transaction appeared in the block.
    InBlock(BlockHash, TxHash),
    /// The block that held the transaction was retracted.
    Retracted(BlockHash, TxHash),
    /// The block that holds the transaction is final.
    Finalized(BlockHash, TxHash),
    /// The first transaction was replaced by the second.
    Usurped(TxHash, TxHash),
    /// The transaction was dropped.
    Dropped(TxHash),
    /// The transaction was found invalid.
    Invalid(TxHash),
    /// The transaction was evicted by the limits of the pool.
    LimitsEnforced(TxHash),
}

/// The transaction that an event is about.
pub open spec fn subject(event: PoolEvent) -> TxHash {
    match event {
        PoolEvent::Future(h) => h,
        PoolEvent::Ready(h) => h,
        PoolEvent::Broadcast(h, _) => h,
        PoolEvent::InBlock(_, h) => h,
        PoolEvent::Retracted(_, h) => h,
        PoolEvent::Finalized(_, h) => h,
        PoolEvent::Usurped(h, _) => h,
        PoolEvent::Dropped(h) => h,
        PoolEvent::Invalid(h) => h,
        PoolEvent::LimitsEnforced(h) => h,
    }
}

/// Whether an event is the last that the watchers of its transaction get.
pub open spec fn is_terminal(event: PoolEvent) -> bool {
    match event {
        PoolEvent::Finalized(_, _) => true,
        PoolEvent::Usurped(_, _) => true,
        PoolEvent::Dropped(_) => true,
        PoolEvent::Invalid(_) => true,
        PoolEvent::LimitsEnforced(_) => true,
        _ => false,
    }
}

/// What the watchers of a transaction are told of an event. An eviction by
/// the limits reaches them as a drop.
pub open spec fn status_of(event: PoolEvent) -> StatusView {
    match event {
        PoolEvent::Future(_) => StatusView::Future,
        PoolEvent::Ready(_) => StatusView::Ready,
        PoolEvent::Broadcast(_, peers) => StatusView::Broadcast(peers),
        PoolEvent::InBlock(block, _) => StatusView::InBlock(block),
        PoolEvent::Retracted(block, _) => StatusView::Retracted(block),
        PoolEvent::Finalized(block, _) => StatusView::Finalized(block),
        PoolEvent::Usurped(_, by) => StatusView::Usurped(by),
        PoolEvent::Dropped(_) => StatusView::Dropped,
        PoolEvent::Invalid(_) => StatusView::Invalid,
        PoolEvent::LimitsEnforced(_) => StatusView::Dropped,
    }
}

/// The names of a list of peers.
pub open spec fn peer_names(peers: Seq<String>) -> Seq<Seq<char>> {
    peers.map_values(|p: String| p@)
}

/// A sink for the events of the pool. Every method has a default that does
/// nothing; the pool does not depend on what a handler does.
pub trait EventHandler {
    /// The transaction became ready.
    fn ready(&self, tx: TxHash) {
    }

    /// The transaction entered the future partition.
    fn future(&self, tx: TxHash) {
    }

    /// The transaction was broadcast to the named peers.
    fn broadcasted(&self, tx: TxHash, peers: &Vec<String>) {
    }

    /// The transaction was evicted by the limits of the pool.
    fn limits_enforced(&self, tx: TxHash) {
    }

    /// The transaction was replaced by another.
    fn usurped(&self, tx: TxHash, by: TxHash) {
    }

    /// The transaction was dropped.
    fn dropped(&self, tx: TxHash) {
    }

    /// The transaction was found invalid.
    fn invalid(&self, tx: TxHash) {
    }

    /// The transaction appeared in a block.
    fn pruned(&self, tx: TxHash, block: BlockHash) {
    }

    /// The block that held the transaction was retracted.
    fn retracted(&self, tx: TxHash, block: BlockHash) {
    }

    /// The block that holds the transaction is final.
    fn finalized(&self, tx: TxHash, block: BlockHash) {
    }
}

/// The channels of the watchers that were made for one hash at one time.
pub struct WatchEntry {
    hash: TxHash,
    senders: Vec<UnboundedSender<TransactionStatus>>,
}

/// A transaction that appeared in a block.
#[derive(Clone, Copy, Debug, PartialEq, Eq, Structural)]
pub struct Inclusion {
    pub block: BlockHash,
    pub hash: TxHash,
}

/// Number of channels that `entries` hold for `hash`.
pub closed spec fn channels_for(entries: Seq<WatchEntry>, hash: TxHash) -> nat
    decreases entries.len(),
{
    if entries.len() == 0 {
        0
    } else {
        channels_for(entries.drop_last(), hash) + if entries.last().hash == hash {
            entries.last().senders@.len()
        } else {
            0
        }
    }
}

/// The channels of a registry with one more entry.
proof fn lemma_channels_push(entries: Seq<WatchEntry>, entry: WatchEntry, hash: TxHash)
    ensures
        channels_for(entries.push(entry), hash) == channels_for(entries, hash) + if entry.hash
            == hash {
            entry.senders@.len()
        } else {
            0
        },
{
    lemma_push_drop_last(entries, entry);
}

/// The channels of a prefix of a registry that grows by one entry.
proof fn lemma_channels_step(entries: Seq<WatchEntry>, i: int, hash: TxHash)
    requires
        0 <= i < entries.len(),
    ensures
        channels_for(entries.take(i + 1), hash) == channels_for(entries.take(i), hash)
            + if entries[i].hash == hash {
            entries[i].senders@.len()
        } else {
            0
        },
{
    lemma_take_step(entries, i);
}

/// The test "is in the block `block`".
pub open spec fn in_block(block: BlockHash) -> spec_fn(Inclusion) -> bool {
    |i: Inclusion| i.block == block
}

/// The test "is in another block than `block`".
pub open spec fn in_other_block(block: BlockHash) -> spec_fn(Inclusion) -> bool {
    |i: Inclusion| i.block != block
}

/// The events that retracting the block of `included` dispatches.
pub open spec fn retractions(included: Seq<Inclusion>) -> Seq<PoolEvent> {
    included.map_values(|i: Inclusion| PoolEvent::Retracted(i.block, i.hash))
}

/// The events that finalizing the block of `included` dispatches.
pub open spec fn finalizations(included: Seq<Inclusion>) -> Seq<PoolEvent> {
    included.map_values(|i: Inclusion| PoolEvent::Finalized(i.block, i.hash))
}

/// Whether some inclusion of `included` is of `hash`.
pub open spec fn includes(included: Seq<Inclusion>, hash: TxHash) -> bool {
    exists|i: int| 0 <= i < included.len() && (#[trigger] included[i]).hash == hash
}

/// The event dispatcher. It keeps the channels of the watchers by hash,
/// remembers which transactions appeared in which block, hands every event
/// to the event handler and to the watchers of its transaction, and closes
/// the channels of a transaction with its terminal event.
pub struct EventDispatcher<L: EventHandler> {
    watchers: Vec<WatchEntry>,
    included: Vec<Inclusion>,
    handler: Option<L>,
    history: Ghost<Seq<PoolEvent>>,
}

impl<L: EventHandler> EventDispatcher<L> {
    /// Number of watchers that follow `hash`.
    pub closed spec fn watch_count(&self, hash: TxHash) -> nat {
        channels_for(self.watchers@, hash)
    }

    /// The events dispatched so far, in order.
    pub closed spec fn history(&self) -> Seq<PoolEvent> {
        self.history@
    }

    /// The transactions that appeared in blocks that are neither final nor
    /// retracted, in the order in which they appeared.
    pub closed spec fn included(&self) -> Seq<Inclusion> {
        self.included@
    }

    /// The event handler to which every event is handed, if there is one.
    pub closed spec fn handler(&self) -> Option<L> {
        self.handler
    }

    /// Every entry of the registry holds a channel.
    pub closed spec fn wf(&self) -> bool {
        forall|i: int| 0 <= i < self.watchers@.len() ==> (#[trigger] self.watchers@[i]).senders@.len() > 0
    }

    /// This dispatcher is a later state of `before`: the history went on, no
    /// hash gained a watcher, and the transaction of every terminal event
    /// dispatched since has no watcher left.
    pub open spec fn follows(&self, before: &Self) -> bool {
        &&& self.handler() == before.handler()
        &&& before.history().len() <= self.history().len()
        &&& self.history().take(before.history().len() as int) == before.history()
        &&& forall|h: TxHash| self.watch_count(h) <= before.watch_count(h)
        &&& forall|k: int|
            before.history().len() <= k < self.history().len() && is_terminal(
                #[trigger] self.history()[k],
            ) ==> self.watch_count(subject(self.history()[k])) == 0
    }

    /// Every dispatcher is a later state of itself.
    pub proof fn lemma_follows_itself(&self)
        ensures
            self.follows(self),
    {
        assert(self.history().take(self.history().len() as int) =~= self.history());
    }

    /// A later state of a later state is a later state. So once a terminal
    /// event of a transaction is dispatched, no watcher that followed the
    /// transaction then is told anything more, whatever is dispatched later.
    pub proof fn law_terminal_event_is_last(&self, middle: &Self, before: &Self)
        requires
            middle.follows(before),
            self.follows(middle),
        ensures
            self.follows(before),
    {
        let h0 = before.history();
        let h1 = middle.history();
        let h2 = self.history();
        assert(h2.take(h0.len() as int) =~= h0) by {
            assert(h1.take(h0.len() as int) == h0);
            assert(h2.take(h1.len() as int) == h1);
            assert forall|i: int| 0 <= i < h0.len() implies h2[i] == h0[i] by {
                assert(h1.take(h0.len() as int)[i] == h1[i]);
                assert(h2.take(h1.len() as int)[i] == h2[i]);
            }
        }
        assert forall|k: int| h0.len() <= k < h2.len() && is_terminal(#[trigger] h2[k]) implies self.watch_count(
            subject(h2[k]),
        ) == 0 by {
            if k < h1.len() {
                assert(h2.take(h1.len() as int)[k] == h2[k]);
                assert(is_terminal(h1[k]));
                assert(middle.watch_count(subject(h1[k])) == 0);
            }
        }
    }

    /// A dispatcher without watchers that hands its events to `handler`.
    pub fn new_with_event_handler(handler: Option<L>) -> (r: Self)
        ensures
            r.wf(),
            r.handler() == handler,
            r.history() == Seq::<PoolEvent>::empty(),
            r.included() == Seq::<Inclusion>::empty(),
            forall|h: TxHash| r.watch_count(h) == 0,
    {
        EventDispatcher {
            watchers: Vec::new(),
            included: Vec::new(),
            handler,
            history: Ghost(Seq::empty()),
        }
    }

    /// A new watcher of `hash`. It is told every event of `hash` from now on,
    /// up to the first terminal one.
    pub fn create_watcher(&mut self, hash: TxHash) -> (r: Watcher)
        requires
            old(self).wf(),
        ensures
            final(self).wf(),
            r.watched() == hash,
            final(self).watch_count(hash) == old(self).watch_count(hash) + 1,
            forall|h: TxHash| h != hash ==> final(self).watch_count(h) == old(self).watch_count(h),
            final(self).history() == old(self).history(),
            final(self).included() == old(self).included(),
            final(self).handler() == old(self).handler(),
    {
        let pair = open_watch_channel();
        let mut senders: Vec<UnboundedSender<TransactionStatus>> = Vec::new();
        senders.push(pair.0);
        let entry = WatchEntry { hash, senders };
        proof {
            lemma_push_drop_last(self.watchers@, entry);
        }
        self.watchers.push(entry);
        Watcher::new(hash, pair.1)
    }

    /// The hashes that have a watcher, each once.
    pub fn watched_transactions(&self) -> (r: Vec<TxHash>)
        requires
            self.wf(),
        ensures
            forall|h: TxHash| r@.contains(h) <==> self.watch_count(h) > 0,
            forall|i: int, j: int| 0 <= i < j < r.len() ==> r@[i] != r@[j],
    {
        let mut out: Vec<TxHash> = Vec::new();
        let mut i: usize = 0;
        while i < self.watchers.len()
            invariant
                i <= self.watchers.len(),
                self.wf(),
                forall|h: TxHash|
                    out@.contains(h) <==> channels_for(self.watchers@.take(i as int), h) > 0,
                forall|a: int, b: int| 0 <= a < b < out.len() ==> out@[a] != out@[b],
            decreases self.watchers.len() - i,
        {
            let ghost before = out@;
            let hash: TxHash = self.watchers[i].hash;
            proof {
                lemma_take_step(self.watchers@, i as int);
                assert(self.watchers@[i as int].senders@.len() > 0);
            }
            if !hash_in(out.as_slice(), hash) {
                out.push(hash);
                proof {
                    assert forall|h: TxHash| out@.contains(h) <==> channels_for(
                        self.watchers@.take(i as int + 1),
                        h,
                    ) > 0 by {
                        if before.contains(h) {
                            let k = choose|k: int| 0 <= k < before.len() && before[k] == h;
                            assert(out@[k] == h);
                        }
                        if h == hash {
                            assert(out@[out.len() - 1] == h);
                        }
                        if out@.contains(h) && h != hash {
                            let k = choose|k: int| 0 <= k < out@.len() && out@[k] == h;
                            assert(before[k] == h);
                        }
                    }
                }
            }
            i += 1;
        }
        proof {
            lemma_take_all(self.watchers@);
        }
        out
    }

    /// Hands `status`, which is what the watchers are told of `event`, to
    /// every channel of `hash`. Keeps the channels that took it, unless the
    /// event is terminal.
    fn fire(&mut self, hash: TxHash, status: TransactionStatus, terminal: bool, event: Ghost<PoolEvent>)
        requires
            old(self).wf(),
            hash == subject(event@),
            terminal == is_terminal(event@),
            status@ == status_of(event@),
        ensures
            final(self).wf(),
            final(self).follows(old(self)),
            final(self).history() == old(self).history().push(event@),
            final(self).included() == old(self).included(),
            final(self).watch_count(hash) <= old(self).watch_count(hash),
            terminal ==> final(self).watch_count(hash) == 0,
            forall|h: TxHash| h != hash ==> final(self).watch_count(h) == old(self).watch_count(h),
    {
        let mut entries: Vec<WatchEntry> = Vec::new();
        core::mem::swap(&mut self.watchers, &mut entries);
        let ghost orig = entries@;
        let mut kept: Vec<WatchEntry> = Vec::new();
        for entry in it: entries
            invariant
                it.seq() == orig,
                forall|k: int| 0 <= k < orig.len() ==> (#[trigger] orig[k]).senders@.len() > 0,
                forall|k: int| 0 <= k < kept@.len() ==> (#[trigger] kept@[k]).senders@.len() > 0,
                channels_for(kept@, hash) <= channels_for(orig.take(it.index() as int), hash),
                terminal ==> channels_for(kept@, hash) == 0,
                forall|h: TxHash|
                    h != hash ==> channels_for(kept@, h) == channels_for(
                        orig.take(it.index() as int),
                        h,
                    ),
        {
            let ghost i = it.index() as int;
            let ghost before = kept@;
            proof {
                lemma_take_step(orig, i);
                assert(orig[i] == entry);
                assert forall|h: TxHash| true implies channels_for(orig.take(i + 1), h)
                    == channels_for(orig.take(i), h) + if entry.hash == h {
                    entry.senders@.len()
                } else {
                    0
                } by {
                    lemma_channels_step(orig, i, h);
                }
            }
            if entry.hash != hash {
                proof {
                    assert forall|h: TxHash| true implies channels_for(before.push(entry), h)
                        == channels_for(before, h) + if entry.hash == h {
                        entry.senders@.len()
                    } else {
                        0
                    } by {
                        lemma_channels_push(before, entry, h);
                    }
                }
                kept.push(entry);
            } else {
                let mut live: Vec<UnboundedSender<TransactionStatus>> = Vec::new();
                let ghost total = entry.senders@.len();
                for sender in at: entry.senders
                    invariant
                        live@.len() <= at.index(),
                        at.seq().len() == total,
                        terminal ==> live@.len() == 0,
                {
                    if offer(&sender, status.clone()) && !terminal {
                        live.push(sender);
                    }
                }
                if live.len() > 0 {
                    let renewed = WatchEntry { hash, senders: live };
                    proof {
                        assert forall|h: TxHash| true implies channels_for(before.push(renewed), h)
                            == channels_for(before, h) + if renewed.hash == h {
                            renewed.senders@.len()
                        } else {
                            0
                        } by {
                            lemma_channels_push(before, renewed, h);
                        }
                    }
                    kept.push(renewed);
                }
            }
        }
        proof {
            lemma_take_all(orig);
        }
        self.watchers = kept;
        self.history = Ghost(self.history@.push(event@));
        proof {
            assert(self.history().take(old(self).history().len() as int) =~= old(self).history());
            assert forall|h: TxHash| self.watch_count(h) <= old(self).watch_count(h) by {
                if h != hash {
                    assert(self.watch_count(h) == old(self).watch_count(h));
                }
            }
        }
    }

    /// The transaction entered the future partition.
    pub fn future(&mut self, tx: &TxHash)
        requires
            old(self).wf(),
        ensures
            final(self).wf(),
            final(self).follows(old(self)),
            final(self).history() == old(self).history().push(PoolEvent::Future(*tx)),
            final(self).included() == old(self).included(),
            forall|h: TxHash| final(self).watch_count(h) <= old(self).watch_count(h),
            forall|h: TxHash| h != *tx ==> final(self).watch_count(h) == old(self).watch_count(h),
    {
        match &self.handler {
            Some(l) => {
                l.future(*tx);
            },
            None => {},
        }
        self.fire(*tx, TransactionStatus::Future, false, Ghost(PoolEvent::Future(*tx)));
    }

    /// The transaction became ready. Where `replaced` names a transaction,
    /// that one was usurped by it.
    pub fn ready(&mut self, tx: &TxHash, replaced: Option<&TxHash>)
        requires
            old(self).wf(),
        ensures
            final(self).wf(),
            final(self).follows(old(self)),
            final(self).history() == match replaced {
                Some(o) => old(self).history().push(PoolEvent::Ready(*tx)).push(
                    PoolEvent::Usurped(*o, *tx),
                ),
                None => old(self).history().push(PoolEvent::Ready(*tx)),
            },
            final(self).included() == old(self).included(),
            forall|h: TxHash| final(self).watch_count(h) <= old(self).watch_count(h),
            forall|h: TxHash|
                h != *tx && (replaced matches Some(o) ==> h != *o) ==> final(self).watch_count(h)
                    == old(self).watch_count(h),
            replaced matches Some(o) ==> final(self).watch_count(*o) == 0,
    {
        match &self.handler {
            Some(l) => {
                l.ready(*tx);
            },
            None => {},
        }
        self.fire(*tx, TransactionStatus::Ready, false, Ghost(PoolEvent::Ready(*tx)));
        match replaced {
            Some(o) => {
                let ghost middle = *self;
                self.usurped(o, tx);
                proof {
                    self.law_terminal_event_is_last(&middle, old(self));
                }
            },
            None => {},
        }
    }

    /// The transaction was broadcast to `peers`.
    pub fn broadcasted(&mut self, tx: &TxHash, peers: Vec<String>)
        requires
            old(self).wf(),
        ensures
            final(self).wf(),
            final(self).follows(old(self)),
            final(self).history() == old(self).history().push(
                PoolEvent::Broadcast(*tx, peer_names(peers@)),
            ),
            final(self).included() == old(self).included(),
            forall|h: TxHash| final(self).watch_count(h) <= old(self).watch_count(h),
            forall|h: TxHash| h != *tx ==> final(self).watch_count(h) == old(self).watch_count(h),
    {
        match &self.handler {
            Some(l) => {
                l.broadcasted(*tx, &peers);
            },
            None => {},
        }
        let ghost names = peer_names(peers@);
        self.fire(
            *tx,
            TransactionStatus::Broadcast(peers),
            false,
            Ghost(PoolEvent::Broadcast(*tx, names)),
        );
    }

    /// The transaction `tx` was replaced by `by`. The watchers of `tx` are
    /// told and let go.
    pub fn usurped(&mut self, tx: &TxHash, by: &TxHash)
        requires
            old(self).wf(),
        ensures
            final(self).wf(),
            final(self).follows(old(self)),
            final(self).history() == old(self).history().push(PoolEvent::Usurped(*tx, *by)),
            final(self).included() == old(self).included(),
            final(self).watch_count(*tx) == 0,
            forall|h: TxHash| h != *tx ==> final(self).watch_count(h) == old(self).watch_count(h),
    {
        match &self.handler {
            Some(l) => {
                l.usurped(*tx, *by);
            },
            None => {},
        }
        self.fire(*tx, TransactionStatus::Usurped(*by), true, Ghost(PoolEvent::Usurped(*tx, *by)));
    }

    /// The transaction was dropped. Its watchers are told and let go.
    pub fn dropped(&mut self, tx: &TxHash)
        requires
            old(self).wf(),
        ensures
            final(self).wf(),
            final(self).follows(old(self)),
            final(self).history() == old(self).history().push(PoolEvent::Dropped(*tx)),
            final(self).included() == old(self).included(),
            final(self).watch_count(*tx) == 0,
            forall|h: TxHash| h != *tx ==> final(self).watch_count(h) == old(self).watch_count(h),
    {
        match &self.handler {
            Some(l) => {
                l.dropped(*tx);
            },
            None => {},
        }
        self.fire(*tx, TransactionStatus::Dropped, true, Ghost(PoolEvent::Dropped(*tx)));
    }

    /// The transaction was evicted by the limits of the pool. Its watchers
    /// are told that it was dropped and let go.
    pub fn limits_enforced(&mut self, tx: &TxHash)
        requires
            old(self).wf(),
        ensures
            final(self).wf(),
            final(self).follows(old(self)),
            final(self).history() == old(self).history().push(PoolEvent::LimitsEnforced(*tx)),
            final(self).included() == old(self).included(),
            final(self).watch_count(*tx) == 0,
            forall|h: TxHash| h != *tx ==> final(self).watch_count(h) == old(self).watch_count(h),
    {
        match &self.handler {
            Some(l) => {
                l.limits_enforced(*tx);
            },
            None => {},
        }
        self.fire(*tx, TransactionStatus::Dropped, true, Ghost(PoolEvent::LimitsEnforced(*tx)));
    }

    /// The transaction was found invalid. Its watchers are told and let go.
    pub fn invalid(&mut self, tx: &TxHash)
        requires
            old(self).wf(),
        ensures
            final(self).wf(),
            final(self).follows(old(self)),
            final(self).history() == old(self).history().push(PoolEvent::Invalid(*tx)),
            final(self).included() == old(self).included(),
            final(self).watch_count(*tx) == 0,
            forall|h: TxHash| h != *tx ==> final(self).watch_count(h) == old(self).watch_count(h),
    {
        match &self.handler {
            Some(l) => {
                l.invalid(*tx);
            },
            None => {},
        }
        self.fire(*tx, TransactionStatus::Invalid, true, Ghost(PoolEvent::Invalid(*tx)));
    }

    /// The transaction appeared in the block `block`. The dispatcher
    /// remembers it until the block is final or retracted.
    pub fn pruned(&mut self, block: BlockHash, tx: &TxHash)
        requires
            old(self).wf(),
        ensures
            final(self).wf(),
            final(self).follows(old(self)),
            final(self).history() == old(self).history().push(PoolEvent::InBlock(block, *tx)),
            final(self).included() == old(self).included().push(Inclusion { block, hash: *tx }),
            forall|h: TxHash| final(self).watch_count(h) <= old(self).watch_count(h),
            forall|h: TxHash| h != *tx ==> final(self).watch_count(h) == old(self).watch_count(h),
    {
        match &self.handler {
            Some(l) => {
                l.pruned(*tx, block);
            },
            None => {},
        }
        self.included.push(Inclusion { block, hash: *tx });
        self.fire(*tx, TransactionStatus::InBlock(block), false, Ghost(PoolEvent::InBlock(block, *tx)));
    }

    /// Takes the transactions that appeared in `block` out of the memory of
    /// inclusions.
    fn take_included(&mut self, block: BlockHash) -> (r: Vec<Inclusion>)
        requires
            old(self).wf(),
        ensures
            final(self).wf(),
            r@ == old(self).included().filter(in_block(block)),
            final(self).included() == old(self).included().filter(in_other_block(block)),
            final(self).history() == old(self).history(),
            final(self).follows(old(self)),
            forall|h: TxHash| final(self).watch_count(h) == old(self).watch_count(h),
    {
        let ghost all = self.included@;
        let ghost yes = in_block(block);
        let ghost no = in_other_block(block);
        let mut taken: Vec<Inclusion> = Vec::new();
        let mut left: Vec<Inclusion> = Vec::new();
        let mut i: usize = 0;
        proof {
            lemma_filter_empty(yes);
            lemma_filter_empty(no);
            assert(all.take(0) =~= Seq::<Inclusion>::empty());
        }
        while i < self.included.len()
            invariant
                i <= self.included.len(),
                all == self.included@,
                yes == in_block(block),
                no == in_other_block(block),
                taken@ == all.take(i as int).filter(yes),
                left@ == all.take(i as int).filter(no),
                self.watchers == old(self).watchers,
                self.history == old(self).history,
                self.handler == old(self).handler,
            decreases self.included.len() - i,
        {
            proof {
                lemma_filter_step(all, i as int, yes);
                lemma_filter_step(all, i as int, no);
            }
            if self.included[i].block == block {
                taken.push(self.included[i]);
            } else {
                left.push(self.included[i]);
            }
            i += 1;
        }
        proof {
            lemma_take_all(all);
        }
        self.included = left;
        proof {
            assert(self.history().take(old(self).history().len() as int) =~= old(self).history());
        }
        taken
    }

    /// The block `block` was retracted. The watchers of the transactions
    /// that appeared in it are told, and the dispatcher forgets the block.
    pub fn retracted(&mut self, block: BlockHash)
        requires
            old(self).wf(),
        ensures
            final(self).wf(),
            final(self).follows(old(self)),
            final(self).history() == old(self).history() + retractions(
                old(self).included().filter(in_block(block)),
            ),
            final(self).included() == old(self).included().filter(in_other_block(block)),
            forall|h: TxHash| final(self).watch_count(h) <= old(self).watch_count(h),
            forall|h: TxHash|
                !includes(old(self).included().filter(in_block(block)), h) ==> final(self).watch_count(h) == old(self).watch_count(h),
    {
        let list = self.take_included(block);
        let ghost start = self.history();
        let mut i: usize = 0;
        proof {
            assert(retractions(list@.take(0)) =~= Seq::<PoolEvent>::empty());
            assert(start + Seq::<PoolEvent>::empty() =~= start);
        }
        while i < list.len()
            invariant
                i <= list.len(),
                self.wf(),
                self.follows(old(self)),
                self.history() == start + retractions(list@.take(i as int)),
                self.included() == old(self).included().filter(in_other_block(block)),
                forall|h: TxHash| self.watch_count(h) <= old(self).watch_count(h),
                forall|h: TxHash|
                    !includes(list@.take(i as int), h) ==> self.watch_count(h) == old(self).watch_count(h),
            decreases list.len() - i,
        {
            let entry = list[i];
            let ghost before = self.history();
            proof {
                lemma_take_step(list@, i as int);
                assert(retractions(list@.take(i as int + 1)) =~= retractions(
                    list@.take(i as int),
                ).push(PoolEvent::Retracted(entry.block, entry.hash)));
                assert(start + retractions(list@.take(i as int + 1)) =~= before.push(
                    PoolEvent::Retracted(entry.block, entry.hash),
                ));
                assert forall|h: TxHash| !includes(list@.take(i as int + 1), h) implies !includes(
                    list@.take(i as int),
                    h,
                ) && h != entry.hash by {
                    if includes(list@.take(i as int), h) {
                        let k = choose|k: int|
                            0 <= k < list@.take(i as int).len() && (#[trigger] list@.take(
                                i as int,
                            )[k]).hash == h;
                        assert(list@.take(i as int + 1)[k].hash == h);
                    }
                    if h == entry.hash {
                        assert(list@.take(i as int + 1)[i as int].hash == h);
                    }
                }
            }
            match &self.handler {
                Some(l) => {
                    l.retracted(entry.hash, entry.block);
                },
                None => {},
            }
            let ghost middle = *self;
            self.fire(
                entry.hash,
                TransactionStatus::Retracted(entry.block),
                false,
                Ghost(PoolEvent::Retracted(entry.block, entry.hash)),
            );
            proof {
                self.law_terminal_event_is_last(&middle, old(self));
            }
            i += 1;
        }
        proof {
            lemma_take_all(list@);
        }
    }

    /// The block `block` is final. The watchers of the transactions that
    /// appeared in it are told and let go, and the dispatcher forgets the block.
    pub fn finalized(&mut self, block: BlockHash)
        requires
            old(self).wf(),
        ensures
            final(self).wf(),
            final(self).follows(old(self)),
            final(self).history() == old(self).history() + finalizations(
                old(self).included().filter(in_block(block)),
            ),
            final(self).included() == old(self).included().filter(in_other_block(block)),
            forall|h: TxHash| final(self).watch_count(h) <= old(self).watch_count(h),
            forall|h: TxHash|
                includes(old(self).included().filter(in_block(block)), h) ==> final(self).watch_count(h) == 0,
            forall|h: TxHash|
                !includes(old(self).included().filter(in_block(block)), h) ==> final(self).watch_count(h) == old(self).watch_count(h),
    {
        let list = self.take_included(block);
        let ghost start = self.history();
        let mut i: usize = 0;
        proof {
            assert(finalizations(list@.take(0)) =~= Seq::<PoolEvent>::empty());
            assert(start + Seq::<PoolEvent>::empty() =~= start);
        }
        while i < list.len()
            invariant
                i <= list.len(),
                self.wf(),
                self.follows(old(self)),
                self.history() == start + finalizations(list@.take(i as int)),
                self.included() == old(self).included().filter(in_other_block(block)),
                forall|h: TxHash| self.watch_count(h) <= old(self).watch_count(h),
                forall|h: TxHash| includes(list@.take(i as int), h) ==> self.watch_count(h) == 0,
                forall|h: TxHash|
                    !includes(list@.take(i as int), h) ==> self.watch_count(h) == old(self).watch_count(h),
            decreases list.len() - i,
        {
            let entry = list[i];
            let ghost before = self.history();
            proof {
                lemma_take_step(list@, i as int);
                assert(finalizations(list@.take(i as int + 1)) =~= finalizations(
                    list@.take(i as int),
                ).push(PoolEvent::Finalized(entry.block, entry.hash)));
                assert(start + finalizations(list@.take(i as int + 1)) =~= before.push(
                    PoolEvent::Finalized(entry.block, entry.hash),
                ));
                assert forall|h: TxHash| !includes(list@.take(i as int + 1), h) implies !includes(
                    list@.take(i as int),
                    h,
                ) && h != entry.hash by {
                    if includes(list@.take(i as int), h) {
                        let k = choose|k: int|
                            0 <= k < list@.take(i as int).len() && (#[trigger] list@.take(
                                i as int,
                            )[k]).hash == h;
                        assert(list@.take(i as int + 1)[k].hash == h);
                    }
                    if h == entry.hash {
                        assert(list@.take(i as int + 1)[i as int].hash == h);
                    }
                }
                assert forall|h: TxHash| includes(list@.take(i as int + 1), h) implies includes(
                    list@.take(i as int),
                    h,
                ) || h == entry.hash by {
                    let k = choose|k: int|
                        0 <= k < list@.take(i as int + 1).len() && (#[trigger] list@.take(
                            i as int + 1,
                        )[k]).hash == h;
                    if k < i {
                        assert(list@.take(i as int)[k].hash == h);
                    }
                }
            }
            match &self.handler {
                Some(l) => {
                    l.finalized(entry.hash, entry.block);
                },
                None => {},
            }
            let ghost middle = *self;
            self.fire(
                entry.hash,
                TransactionStatus::Finalized(entry.block),
                true,
                Ghost(PoolEvent::Finalized(entry.block, entry.hash)),
            );
            proof {
                self.law_terminal_event_is_last(&middle, old(self));
            }
            i += 1;
        }
        proof {
            lemma_take_all(list@);
        }
    }
}

} // verus!
