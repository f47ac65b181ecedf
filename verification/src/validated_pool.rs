//! The validated pool: the base pool, the rotator and the event dispatcher
//! bound together. It takes only verdicts on transactions.

use vstd::prelude::*;
use std::collections::HashSet;
use std::sync::Arc;
use futures::channel::mpsc::{Receiver, Sender};
use indexmap::IndexMap;
use crate::base_pool::{
    hashes, imported_views, optional_view, BasePool, Imported, Limit, PoolStatus, PruneStatus,
};
use crate::channel::{
    connected, keep_connected, lemma_connected_len, open_channel, try_notify, Delivery,
};
use crate::error::Error;
use crate::facts::{lemma_take_all, lemma_take_contains, lemma_take_step};
use crate::listener::{
    finalizations, in_block, in_other_block, peer_names, retractions, EventDispatcher, EventHandler,
    Inclusion, PoolEvent,
};
use crate::model::{
    enforce_limits_spec, exceeded, has_hash, hashes_of, import_spec, lookup, lookup_pool,
    prune_spec, ready_order, remove_subtree_spec, status_spec, sum_bytes, total_bytes, ImportedView,
    PoolState, PruneView,
};
use crate::resubmit::{
    announce, entries_bytes, entry_count, first_key, gather, is_news, key_position, keys_of,
    lemma_entries_bytes_nonneg, lemma_entries_bytes_prefix, lemma_entries_bytes_remove,
    lemma_gather_step, lemma_key_position, lemma_queue_push, map_entries, queue_views, reimport,
    requeue, resubmit_spec, set_mark, set_marks, shift_remove, standing_notice, verdict_at, Entry,
    Mark, Standing,
};
use crate::rotator::{
    ban_if_stale_spec, ban_spec, clear_spec, is_banned_at, is_stale, PoolRotator, RotatorState,
};
use crate::types::{
    copy_bytes, hash_set_of, in_set, tag_views, tx_views, BlockHash, BlockNumber, Priority, Tag,
    TimedTransactionSource, Timestamp, Transaction, TxHash, TxView, ValidTransaction,
};
use crate::watcher::Watcher;

verus! {

/// The limits and rules of a pool.
#[derive(Debug, Clone, Copy, PartialEq, Eq)]
pub struct Options {
    /// Cap on the ready partition.
    pub ready: Limit,
    /// Cap on the future partition.
    pub future: Limit,
    /// Whether transactions with unmet requirements are refused.
    pub reject_future_transactions: bool,
    /// How long a ban lasts, in milliseconds.
    pub ban_time: u64,
}

impl Default for Options {
    fn default() -> (r: Self)
        ensures
            r == (Options {
                ready: Limit { count: 8192, total_bytes: 20971520 },
                future: Limit { count: 512, total_bytes: 1048576 },
                reject_future_transactions: false,
                ban_time: 1800000,
            }),
    {
        Options {
            ready: Limit { count: 8192, total_bytes: 20971520 },
            future: Limit { count: 512, total_bytes: 1048576 },
            reject_future_transactions: false,
            ban_time: 1800000,
        }
    }
}

impl Options {
    /// Most transactions that the pool may hold.
    pub fn total_count(&self) -> (r: usize)
        requires
            self.ready.count + self.future.count <= usize::MAX,
        ensures
            r == self.ready.count + self.future.count,
    {
        self.ready.count + self.future.count
    }
}

/// A block by its hash and its height.
#[derive(Debug, Clone, Copy, PartialEq, Eq, Structural)]
pub struct HashAndNumber {
    pub number: BlockNumber,
    pub hash: BlockHash,
}

/// A verdict on a transaction. The pool takes nothing else.
#[derive(Debug, Clone, PartialEq, Eq)]
pub enum ValidatedTransaction {
    /// The transaction is valid.
    Valid(Transaction),
    /// The transaction is invalid.
    Invalid(TxHash, Error),
    /// The validity of the transaction could not be determined.
    Unknown(TxHash, Error),
}

/// Mathematical value of a verdict.
pub enum VerdictView {
    Valid(TxView),
    Invalid(TxHash, Error),
    Unknown(TxHash, Error),
}

impl View for ValidatedTransaction {
    type V = VerdictView;

    open spec fn view(&self) -> VerdictView {
        match *self {
            ValidatedTransaction::Valid(tx) => VerdictView::Valid(tx@),
            ValidatedTransaction::Invalid(hash, e) => VerdictView::Invalid(hash, e),
            ValidatedTransaction::Unknown(hash, e) => VerdictView::Unknown(hash, e),
        }
    }
}

/// The block until which a transaction validated at `at` with `longevity` is valid.
pub open spec fn valid_until(at: BlockNumber, longevity: u64) -> BlockNumber {
    if at + longevity > u64::MAX {
        u64::MAX
    } else {
        (at + longevity) as u64
    }
}

impl ValidatedTransaction {
    /// The verdict "valid" on the transaction `data` with the hash `hash`,
    /// validated at the block `at` with the result `validity`.
    pub fn valid_at(
        at: BlockNumber,
        hash: TxHash,
        source: TimedTransactionSource,
        data: Vec<u8>,
        bytes: usize,
        validity: ValidTransaction,
    ) -> (r: Self)
        ensures
            r@ == VerdictView::Valid(
                TxView {
                    data: data@,
                    bytes,
                    hash,
                    priority: validity.priority,
                    valid_till: valid_until(at, validity.longevity),
                    requires: tag_views(validity.requires@),
                    provides: tag_views(validity.provides@),
                    propagate: validity.propagate,
                    source,
                },
            ),
    {
        ValidatedTransaction::Valid(
            Transaction {
                data,
                bytes,
                hash,
                source,
                priority: validity.priority,
                requires: validity.requires,
                provides: validity.provides,
                propagate: validity.propagate,
                valid_till: at.saturating_add(validity.longevity),
            },
        )
    }

    /// The priority of a valid transaction.
    pub fn priority(&self) -> (r: Option<Priority>)
        ensures
            r == match self@ {
                VerdictView::Valid(tx) => Some(tx.priority),
                _ => None,
            },
    {
        match self {
            ValidatedTransaction::Valid(tx) => Some(tx.priority),
            _ => None,
        }
    }
}

/// The values of a list of verdicts.
pub open spec fn verdict_views(list: Seq<ValidatedTransaction>) -> Seq<VerdictView> {
    list.map_values(|v: ValidatedTransaction| v@)
}

/// Whether this node may author blocks.
#[derive(Debug, Clone, Copy, PartialEq, Eq, Structural)]
pub struct IsValidator(pub bool);

impl From<bool> for IsValidator {
    fn from(is_validator: bool) -> (r: Self) {
        IsValidator(is_validator)
    }
}

impl vstd::std_specs::convert::FromSpecImpl<bool> for IsValidator {
    open spec fn obeys_from_spec() -> bool {
        true
    }

    open spec fn from_spec(is_validator: bool) -> Self {
        IsValidator(is_validator)
    }
}

/// What a submission came to.
pub struct BaseSubmitOutcome<W> {
    hash: TxHash,
    watcher: Option<W>,
    priority: Option<Priority>,
}

/// The outcome of a submission to the validated pool.
pub type ValidatedPoolSubmitOutcome = BaseSubmitOutcome<Watcher>;

/// Mathematical value of an outcome, without its watcher.
pub struct Submitted {
    pub hash: TxHash,
    pub priority: Option<Priority>,
}

impl<W> BaseSubmitOutcome<W> {
    /// The hash and the priority of the outcome.
    pub closed spec fn submitted(&self) -> Submitted {
        Submitted { hash: self.hash, priority: self.priority }
    }

    /// Whether the outcome carries a watcher.
    pub closed spec fn watched(&self) -> bool {
        self.watcher is Some
    }

    /// The watcher that the outcome carries.
    pub closed spec fn held(&self) -> W
        recommends
            self.watched(),
    {
        self.watcher->0
    }

    /// An outcome without a watcher.
    pub fn new(hash: TxHash, priority: Option<Priority>) -> (r: Self)
        ensures
            r.submitted() == (Submitted { hash, priority }),
            !r.watched(),
    {
        BaseSubmitOutcome { hash, priority, watcher: None }
    }

    /// The same outcome with `watcher`.
    pub fn with_watcher(self, watcher: W) -> (r: Self)
        ensures
            r.submitted() == self.submitted(),
            r.watched(),
            r.held() == watcher,
    {
        BaseSubmitOutcome { hash: self.hash, priority: self.priority, watcher: Some(watcher) }
    }

    /// The priority of the submitted transaction.
    pub fn priority(&self) -> (r: Option<Priority>)
        ensures
            r == self.submitted().priority,
    {
        self.priority
    }

    /// The hash of the submitted transaction.
    pub fn hash(&self) -> (r: TxHash)
        ensures
            r == self.submitted().hash,
    {
        self.hash
    }

    /// Takes the watcher out of an outcome that carries one.
    pub fn expect_watcher(&mut self) -> (r: W)
        requires
            old(self).watched(),
        ensures
            r == old(self).held(),
            !final(self).watched(),
            final(self).submitted() == old(self).submitted(),
    {
        self.watcher.take().unwrap()
    }
}

/// The result of a submission as a mathematical value.
pub open spec fn outcome_view<W>(r: Result<BaseSubmitOutcome<W>, Error>) -> Result<Submitted, Error> {
    match r {
        Ok(o) => Ok(o.submitted()),
        Err(e) => Err(e),
    }
}

/// The results of a batch as mathematical values.
pub open spec fn outcome_views<W>(list: Seq<Result<BaseSubmitOutcome<W>, Error>>) -> Seq<
    Result<Submitted, Error>,
> {
    list.map_values(|r: Result<BaseSubmitOutcome<W>, Error>| outcome_view(r))
}

/// The adapter to the chain: it hashes transactions.
pub trait ChainApi {
    /// The hash and the encoded length of a transaction.
    fn hash_and_length(&self, data: &Vec<u8>) -> (TxHash, usize);
}

/// What the pool tells about a transaction.
#[derive(Debug, Clone, Copy, PartialEq, Eq, Structural)]
pub enum Notice {
    /// The transaction entered the future partition.
    Future,
    /// The transaction became ready.
    Ready,
    /// The transaction was found invalid.
    Invalid,
    /// The transaction was dropped.
    Dropped,
    /// The transaction was evicted by the limits.
    LimitsEnforced,
    /// The transaction was replaced by the one with this hash.
    Usurped(TxHash),
}

/// The event that tells `notice` of `hash`.
pub open spec fn notice_event(notice: Notice, hash: TxHash) -> PoolEvent {
    match notice {
        Notice::Future => PoolEvent::Future(hash),
        Notice::Ready => PoolEvent::Ready(hash),
        Notice::Invalid => PoolEvent::Invalid(hash),
        Notice::Dropped => PoolEvent::Dropped(hash),
        Notice::LimitsEnforced => PoolEvent::LimitsEnforced(hash),
        Notice::Usurped(by) => PoolEvent::Usurped(hash, by),
    }
}

/// The events that tell `notice` of each hash of `hashes`, in order.
pub open spec fn notices(notice: Notice, hashes: Seq<TxHash>) -> Seq<PoolEvent> {
    hashes.map_values(|h: TxHash| notice_event(notice, h))
}

/// The events of an import: the transaction is ready, then what failed is
/// invalid, what was removed is usurped by it, and what was promoted is
/// ready; or the transaction waits in the future partition.
pub open spec fn fire_events_spec(imported: ImportedView) -> Seq<PoolEvent> {
    match imported {
        ImportedView::Ready { hash, promoted, failed, removed } => seq![PoolEvent::Ready(hash)]
            + notices(Notice::Invalid, failed) + notices(Notice::Usurped(hash), hashes_of(removed))
            + notices(Notice::Ready, promoted),
        ImportedView::Future { hash } => seq![PoolEvent::Future(hash)],
    }
}

/// Tells `notice` of `hash`.
pub fn notify<L: EventHandler>(dispatcher: &mut EventDispatcher<L>, notice: Notice, hash: TxHash)
    requires
        old(dispatcher).wf(),
    ensures
        final(dispatcher).wf(),
        final(dispatcher).follows(old(dispatcher)),
        final(dispatcher).history() == old(dispatcher).history().push(notice_event(notice, hash)),
        final(dispatcher).included() == old(dispatcher).included(),
{
    match notice {
        Notice::Future => dispatcher.future(&hash),
        Notice::Ready => dispatcher.ready(&hash, None),
        Notice::Invalid => dispatcher.invalid(&hash),
        Notice::Dropped => dispatcher.dropped(&hash),
        Notice::LimitsEnforced => dispatcher.limits_enforced(&hash),
        Notice::Usurped(by) => dispatcher.usurped(&hash, &by),
    }
}

/// Tells `notice` of each hash of `hashes`, in order.
pub fn notify_all<L: EventHandler>(
    dispatcher: &mut EventDispatcher<L>,
    notice: Notice,
    hashes: &Vec<TxHash>,
)
    requires
        old(dispatcher).wf(),
    ensures
        final(dispatcher).wf(),
        final(dispatcher).follows(old(dispatcher)),
        final(dispatcher).history() == old(dispatcher).history() + notices(notice, hashes@),
        final(dispatcher).included() == old(dispatcher).included(),
{
    let ghost start = dispatcher.history();
    let mut i: usize = 0;
    proof {
        dispatcher.lemma_follows_itself();
        assert(start + notices(notice, hashes@.take(0)) =~= start);
    }
    while i < hashes.len()
        invariant
            i <= hashes.len(),
            dispatcher.wf(),
            dispatcher.follows(old(dispatcher)),
            dispatcher.history() == start + notices(notice, hashes@.take(i as int)),
            dispatcher.included() == old(dispatcher).included(),
        decreases hashes.len() - i,
    {
        let ghost middle = *dispatcher;
        proof {
            lemma_take_step(hashes@, i as int);
            assert(start + notices(notice, hashes@.take(i as int + 1)) =~= (start + notices(
                notice,
                hashes@.take(i as int),
            )).push(notice_event(notice, hashes@[i as int])));
        }
        notify(dispatcher, notice, hashes[i]);
        proof {
            dispatcher.law_terminal_event_is_last(&middle, old(dispatcher));
        }
        i += 1;
    }
    proof {
        lemma_take_all(hashes@);
    }
}

/// Dispatches the events of an import.
pub fn fire_events<L: EventHandler>(event_dispatcher: &mut EventDispatcher<L>, imported: &Imported)
    requires
        old(event_dispatcher).wf(),
    ensures
        final(event_dispatcher).wf(),
        final(event_dispatcher).follows(old(event_dispatcher)),
        final(event_dispatcher).history() == old(event_dispatcher).history() + fire_events_spec(
            imported@,
        ),
        final(event_dispatcher).included() == old(event_dispatcher).included(),
{
    let ghost start = event_dispatcher.history();
    match imported {
        Imported::Ready { promoted, failed, removed, hash } => {
            notify(event_dispatcher, Notice::Ready, *hash);
            let ghost midway = *event_dispatcher;
            notify_all(event_dispatcher, Notice::Invalid, failed);
            let ghost later = *event_dispatcher;
            let usurped = hashes(removed);
            notify_all(event_dispatcher, Notice::Usurped(*hash), &usurped);
            let ghost latest = *event_dispatcher;
            notify_all(event_dispatcher, Notice::Ready, promoted);
            proof {
                later.law_terminal_event_is_last(&midway, old(event_dispatcher));
                latest.law_terminal_event_is_last(&later, old(event_dispatcher));
                event_dispatcher.law_terminal_event_is_last(&latest, old(event_dispatcher));
                assert(start.push(PoolEvent::Ready(*hash)) =~= start + seq![PoolEvent::Ready(*hash)]);
                assert(event_dispatcher.history() =~= start + fire_events_spec(imported@));
            }
        },
        Imported::Future { hash } => {
            notify(event_dispatcher, Notice::Future, *hash);
            proof {
                assert(start.push(PoolEvent::Future(*hash)) =~= start + seq![
                    PoolEvent::Future(*hash),
                ]);
            }
        },
    }
}

/// Calls `Arc::clone`: another handle to the same value.
#[verifier::external_body]
fn share<T>(handle: &Arc<T>) -> (r: Arc<T>)
    ensures
        r == *handle,
{
    Arc::clone(handle)
}

/// Mathematical value of the validated pool.
pub struct Core {
    /// The base pool.
    pub base: PoolState,
    /// The rotator.
    pub rotator: RotatorState,
    /// The events dispatched so far.
    pub events: Seq<PoolEvent>,
    /// The transactions that appeared in blocks that are neither final nor retracted.
    pub included: Seq<Inclusion>,
    /// The hashes handed to the streams of import notifications so far.
    pub notified: Seq<TxHash>,
    /// The limits and rules.
    pub options: Options,
    /// Whether this node may author blocks.
    pub is_validator: bool,
}

/// Whether a partition of the pool is over its limit.
pub open spec fn limits_exceeded(c: Core) -> bool {
    exceeded(c.options.ready@, c.base.ready.len() as int, sum_bytes(c.base.ready)) || exceeded(
        c.options.future@,
        c.base.future.len() as int,
        sum_bytes(c.base.future),
    )
}

/// The pool after its limits are enforced at `now`, and the hashes of the
/// evicted transactions: they are banned and their watchers told.
pub open spec fn enforce_spec(c: Core, now: Timestamp) -> (Core, Seq<TxHash>) {
    if limits_exceeded(c) {
        let r = enforce_limits_spec(c.base, c.options.ready@, c.options.future@);
        let gone = hashes_of(r.1);
        (
            Core {
                base: r.0,
                rotator: ban_spec(c.rotator, now, gone),
                events: c.events + notices(Notice::LimitsEnforced, gone),
                ..c
            },
            gone,
        )
    } else {
        (c, Seq::empty())
    }
}

/// The pool after one verdict is submitted at `now`, and the result.
pub open spec fn submit_one_spec(c: Core, verdict: VerdictView, now: Timestamp) -> (
    Core,
    Result<Submitted, Error>,
) {
    match verdict {
        VerdictView::Valid(tx) => if !tx.propagate && !c.is_validator {
            (c, Err(Error::Unactionable))
        } else {
            match import_spec(c.base, tx).1 {
                Ok(imported) => (
                    Core {
                        base: import_spec(c.base, tx).0,
                        events: c.events + fire_events_spec(imported),
                        notified: if imported is Ready {
                            c.notified.push(tx.hash)
                        } else {
                            c.notified
                        },
                        ..c
                    },
                    Ok(Submitted { hash: tx.hash, priority: Some(tx.priority) }),
                ),
                Err(e) => (c, Err(e)),
            }
        },
        VerdictView::Invalid(hash, e) => (
            Core { rotator: ban_spec(c.rotator, now, seq![hash]), ..c },
            Err(e),
        ),
        VerdictView::Unknown(hash, e) => (
            Core { events: c.events.push(PoolEvent::Invalid(hash)), ..c },
            Err(e),
        ),
    }
}

/// The pool after the verdicts are submitted one by one, and the results.
pub open spec fn submit_each(c: Core, verdicts: Seq<VerdictView>, now: Timestamp) -> (
    Core,
    Seq<Result<Submitted, Error>>,
)
    decreases verdicts.len(),
{
    if verdicts.len() == 0 {
        (c, Seq::empty())
    } else {
        let before = submit_each(c, verdicts.drop_last(), now);
        let last = submit_one_spec(before.0, verdicts.last(), now);
        (last.0, before.1.push(last.1))
    }
}

/// Whether a result of the batch is a success.
pub open spec fn any_ok(results: Seq<Result<Submitted, Error>>) -> bool {
    exists|i: int| 0 <= i < results.len() && #[trigger] results[i] is Ok
}

/// A result after eviction: a success whose transaction was evicted is a failure.
pub open spec fn settle(r: Result<Submitted, Error>, gone: Seq<TxHash>) -> Result<Submitted, Error> {
    match r {
        Ok(s) => if gone.contains(s.hash) {
            Err(Error::ImmediatelyDropped)
        } else {
            Ok(s)
        },
        Err(e) => Err(e),
    }
}

/// The pool after a batch of verdicts is submitted at `now`, and the results
/// in the order of the verdicts.
pub open spec fn submit_spec(c: Core, verdicts: Seq<VerdictView>, now: Timestamp) -> (
    Core,
    Seq<Result<Submitted, Error>>,
) {
    let each = submit_each(c, verdicts, now);
    if any_ok(each.1) {
        let enforced = enforce_spec(each.0, now);
        (enforced.0, each.1.map_values(|r: Result<Submitted, Error>| settle(r, enforced.1)))
    } else {
        each
    }
}

/// The encoded length that a verdict may add to the pool.
pub open spec fn verdict_bytes(verdict: VerdictView) -> int {
    match verdict {
        VerdictView::Valid(tx) => tx.bytes as int,
        _ => 0,
    }
}

/// The encoded length that a batch of verdicts may add to the pool.
pub open spec fn batch_bytes(verdicts: Seq<VerdictView>) -> int
    decreases verdicts.len(),
{
    if verdicts.len() == 0 {
        0
    } else {
        batch_bytes(verdicts.drop_last()) + verdict_bytes(verdicts.last())
    }
}

/// The length of a batch is not negative, and a prefix is no longer than the batch.
pub proof fn lemma_batch_bytes(verdicts: Seq<VerdictView>, i: int)
    requires
        0 <= i <= verdicts.len(),
    ensures
        0 <= batch_bytes(verdicts.take(i)) <= batch_bytes(verdicts),
    decreases verdicts.len(),
{
    if verdicts.len() == 0 {
        assert(verdicts.take(i) =~= verdicts);
    } else if i == verdicts.len() {
        assert(verdicts.take(i) =~= verdicts);
        lemma_batch_bytes(verdicts.drop_last(), i - 1);
        assert(verdicts.drop_last().take(i - 1) =~= verdicts.drop_last());
    } else {
        lemma_batch_bytes(verdicts.drop_last(), i);
        assert(verdicts.drop_last().take(i) =~= verdicts.take(i));
    }
}

/// The events of a list of imports, one import after the other.
pub open spec fn all_fired(promoted: Seq<ImportedView>) -> Seq<PoolEvent>
    decreases promoted.len(),
{
    if promoted.len() == 0 {
        Seq::empty()
    } else {
        all_fired(promoted.drop_last()) + fire_events_spec(promoted.last())
    }
}

/// The pool after `tags` are pruned, and what the pruning did: the events of
/// every promotion are dispatched, and what failed is reported as dropped.
pub open spec fn prune_tags_spec(c: Core, tags: Seq<Seq<u8>>) -> (Core, PruneView) {
    let r = prune_spec(c.base, tags);
    (
        Core {
            base: r.0,
            events: c.events + all_fired(r.1.promoted) + notices(Notice::Dropped, r.1.failed),
            ..c
        },
        r.1,
    )
}

/// The pool after the transactions named by `hashes` are removed with their
/// dependents, and the removed transactions: the named hashes are banned
/// where `ban` says so, and `notice` is told of every removed transaction.
pub open spec fn remove_subtree_core(
    c: Core,
    hashes: Seq<TxHash>,
    ban: bool,
    notice: Notice,
    now: Timestamp,
) -> (Core, Seq<TxView>) {
    let r = remove_subtree_spec(c.base, hashes);
    (
        Core {
            rotator: if ban {
                ban_spec(c.rotator, now, hashes)
            } else {
                c.rotator
            },
            base: r.0,
            events: c.events + notices(notice, hashes_of(r.1)),
            ..c
        },
        r.1,
    )
}

/// The pool after the invalid transactions named by `hashes` are removed.
pub open spec fn remove_invalid_spec(c: Core, hashes: Seq<TxHash>, now: Timestamp) -> (
    Core,
    Seq<TxView>,
) {
    if hashes.len() == 0 {
        (c, Seq::empty())
    } else {
        remove_subtree_core(c, hashes, true, Notice::Invalid, now)
    }
}

/// The rotator after each stale record of `txs` is banned in turn, and the
/// hashes of the stale records.
pub open spec fn stale_scan(
    rotator: RotatorState,
    now: Timestamp,
    block: BlockNumber,
    txs: Seq<TxView>,
) -> (RotatorState, Seq<TxHash>)
    decreases txs.len(),
{
    if txs.len() == 0 {
        (rotator, Seq::empty())
    } else {
        let before = stale_scan(rotator, now, block, txs.drop_last());
        (
            ban_if_stale_spec(before.0, now, block, txs.last()),
            if is_stale(now, block, before.0.hard_age, txs.last()) {
                before.1.push(txs.last().hash)
            } else {
                before.1
            },
        )
    }
}

/// The pool after its stale transactions are cleared at the block `at` and
/// the moment `now`: the stale ready transactions, in the order in which
/// they are handed out, and then the stale future ones are banned; both are
/// removed as invalid; the bans that have ended are forgotten.
pub open spec fn clear_stale_spec(c: Core, at: HashAndNumber, now: Timestamp) -> Core {
    let r = stale_scan(c.rotator, now, at.number, ready_order(c.base));
    let f = stale_scan(r.0, now, at.number, c.base.future);
    let c1 = remove_invalid_spec(Core { rotator: f.0, ..c }, r.1, now).0;
    let c2 = remove_invalid_spec(c1, f.1, now).0;
    Core { rotator: clear_spec(c2.rotator, now), ..c2 }
}

/// A scan for stale records leaves the rules of the rotator as they are and
/// collects the hash of every stale record.
pub proof fn lemma_stale_scan(
    rotator: RotatorState,
    now: Timestamp,
    block: BlockNumber,
    txs: Seq<TxView>,
)
    ensures
        stale_scan(rotator, now, block, txs).0.hard_age == rotator.hard_age,
        stale_scan(rotator, now, block, txs).0.ban_time == rotator.ban_time,
        stale_scan(rotator, now, block, txs).0.capacity == rotator.capacity,
        forall|i: int|
            0 <= i < txs.len() && is_stale(now, block, rotator.hard_age, #[trigger] txs[i])
                ==> stale_scan(rotator, now, block, txs).1.contains(txs[i].hash),
    decreases txs.len(),
{
    if txs.len() > 0 {
        let rest = txs.drop_last();
        let before = stale_scan(rotator, now, block, rest);
        let all = stale_scan(rotator, now, block, txs);
        lemma_stale_scan(rotator, now, block, rest);
        assert forall|i: int|
            0 <= i < txs.len() && is_stale(
                now,
                block,
                rotator.hard_age,
                #[trigger] txs[i],
            ) implies all.1.contains(txs[i].hash) by {
            if i < rest.len() {
                assert(rest[i] == txs[i]);
                assert(before.1.contains(rest[i].hash));
                let k = choose|k: int| 0 <= k < before.1.len() && before.1[k] == rest[i].hash;
                assert(all.1[k] == txs[i].hash);
            } else {
                assert(all.1[all.1.len() - 1] == txs[i].hash);
            }
        }
    }
}

/// After invalid transactions are removed, none of the named hashes is in
/// the pool, the pool holds only what it held, and its invariant holds.
pub proof fn lemma_remove_invalid(c: Core, hashes: Seq<TxHash>, now: Timestamp)
    requires
        crate::model::pool_wf(c.base),
    ensures
        crate::model::pool_wf(remove_invalid_spec(c, hashes, now).0.base),
        crate::invariants::subset(remove_invalid_spec(c, hashes, now).0.base.ready, c.base.ready),
        crate::invariants::subset(
            remove_invalid_spec(c, hashes, now).0.base.future,
            c.base.future,
        ),
        remove_invalid_spec(c, hashes, now).0.base.consumed == c.base.consumed,
        remove_invalid_spec(c, hashes, now).0.rotator.hard_age == c.rotator.hard_age,
        forall|i: int|
            0 <= i < hashes.len() ==> !has_hash(
                remove_invalid_spec(c, hashes, now).0.base.ready,
                #[trigger] hashes[i],
            ) && !has_hash(remove_invalid_spec(c, hashes, now).0.base.future, hashes[i]),
{
    if hashes.len() == 0 {
        crate::invariants::lemma_subset_self(c.base.ready);
        crate::invariants::lemma_subset_self(c.base.future);
    } else {
        crate::invariants::lemma_remove_subtree_wf(c.base, hashes);
        assert forall|i: int| 0 <= i < hashes.len() implies !has_hash(
            remove_invalid_spec(c, hashes, now).0.base.ready,
            #[trigger] hashes[i],
        ) && !has_hash(remove_invalid_spec(c, hashes, now).0.base.future, hashes[i]) by {
            crate::laws::law_removed_records_are_gone(c.base, hashes, hashes[i]);
        }
        crate::laws::law_removed_records_are_gone(c.base, hashes, hashes[0]);
    }
}

/// After the stale transactions are cleared, the pool holds no transaction
/// that is stale at that block and moment, and nothing that it did not hold
/// before.
pub proof fn law_clear_stale_leaves_no_stale(c: Core, at: HashAndNumber, now: Timestamp)
    requires
        crate::model::pool_wf(c.base),
    ensures
        crate::model::pool_wf(clear_stale_spec(c, at, now).base),
        crate::invariants::subset(clear_stale_spec(c, at, now).base.ready, c.base.ready),
        crate::invariants::subset(clear_stale_spec(c, at, now).base.future, c.base.future),
        forall|i: int|
            0 <= i < clear_stale_spec(c, at, now).base.ready.len() ==> !is_stale(
                now,
                at.number,
                c.rotator.hard_age,
                #[trigger] clear_stale_spec(c, at, now).base.ready[i],
            ),
        forall|i: int|
            0 <= i < clear_stale_spec(c, at, now).base.future.len() ==> !is_stale(
                now,
                at.number,
                c.rotator.hard_age,
                #[trigger] clear_stale_spec(c, at, now).base.future[i],
            ),
{
    let order = ready_order(c.base);
    let r = stale_scan(c.rotator, now, at.number, order);
    let f = stale_scan(r.0, now, at.number, c.base.future);
    let c0 = Core { rotator: f.0, ..c };
    let c1 = remove_invalid_spec(c0, r.1, now).0;
    let c2 = remove_invalid_spec(c1, f.1, now).0;
    let end = clear_stale_spec(c, at, now);
    lemma_stale_scan(c.rotator, now, at.number, order);
    lemma_stale_scan(r.0, now, at.number, c.base.future);
    lemma_remove_invalid(c0, r.1, now);
    lemma_remove_invalid(c1, f.1, now);
    crate::laws::law_ready_order_respects_dependencies(c.base);
    crate::invariants::lemma_subset_trans(c2.base.ready, c1.base.ready, c.base.ready);
    crate::invariants::lemma_subset_trans(c2.base.future, c1.base.future, c.base.future);
    assert forall|i: int| 0 <= i < end.base.ready.len() implies !is_stale(
        now,
        at.number,
        c.rotator.hard_age,
        #[trigger] end.base.ready[i],
    ) by {
        let x = end.base.ready[i];
        if is_stale(now, at.number, c.rotator.hard_age, x) {
            assert(c1.base.ready.contains(x));
            let a = choose|a: int| 0 <= a < c1.base.ready.len() && c1.base.ready[a] == x;
            assert(c.base.ready.contains(c1.base.ready[a]));
            let b = choose|b: int| 0 <= b < c.base.ready.len() && c.base.ready[b] == x;
            assert(order.contains(c.base.ready[b]));
            let o = choose|o: int| 0 <= o < order.len() && order[o] == x;
            assert(r.1.contains(order[o].hash));
            let k = choose|k: int| 0 <= k < r.1.len() && r.1[k] == x.hash;
            assert(!has_hash(c1.base.ready, r.1[k]));
            assert(c1.base.ready[a].hash == x.hash);
            assert(false);
        }
    }
    assert forall|i: int| 0 <= i < end.base.future.len() implies !is_stale(
        now,
        at.number,
        c.rotator.hard_age,
        #[trigger] end.base.future[i],
    ) by {
        let y = end.base.future[i];
        if is_stale(now, at.number, c.rotator.hard_age, y) {
            assert(c.base.future.contains(y));
            let b = choose|b: int| 0 <= b < c.base.future.len() && c.base.future[b] == y;
            assert(f.1.contains(c.base.future[b].hash));
            let k = choose|k: int| 0 <= k < f.1.len() && f.1[k] == y.hash;
            assert(!has_hash(c2.base.future, f.1[k]));
            assert(c2.base.future[i].hash == y.hash);
            assert(false);
        }
    }
}

/// The hashes of `hashes`, each at its first place only.
pub open spec fn unique(hashes: Seq<TxHash>) -> Seq<TxHash>
    decreases hashes.len(),
{
    if hashes.len() == 0 {
        Seq::empty()
    } else if hashes.drop_last().contains(hashes.last()) {
        unique(hashes.drop_last())
    } else {
        unique(hashes.drop_last()).push(hashes.last())
    }
}

/// The inclusions of `hashes` in `block`.
pub open spec fn inclusions(block: BlockHash, hashes: Seq<TxHash>) -> Seq<Inclusion> {
    hashes.map_values(|h: TxHash| Inclusion { block, hash: h })
}

/// The events that tell that each of `hashes` is in `block`.
pub open spec fn in_block_events(block: BlockHash, hashes: Seq<TxHash>) -> Seq<PoolEvent> {
    hashes.map_values(|h: TxHash| PoolEvent::InBlock(block, h))
}

/// The pool after the watchers are told that `hashes` are in the block `at`:
/// each hash is told once.
pub open spec fn fire_pruned_spec(c: Core, at: HashAndNumber, hashes: Seq<TxHash>) -> Core {
    Core {
        events: c.events + in_block_events(at.hash, unique(hashes)),
        included: c.included + inclusions(at.hash, unique(hashes)),
        ..c
    }
}

/// The hashes among the first `n` of `hashes` whose verdict, at the same
/// place of `results`, came back as invalid.
pub open spec fn confirmed(
    hashes: Seq<TxHash>,
    results: Seq<Result<Submitted, Error>>,
    n: int,
) -> Seq<TxHash>
    decreases n,
{
    if n <= 0 {
        Seq::empty()
    } else if results[n - 1] matches Err(Error::InvalidTransaction(_)) {
        confirmed(hashes, results, n - 1).push(hashes[n - 1])
    } else {
        confirmed(hashes, results, n - 1)
    }
}

/// The pool after pruned transactions are resubmitted at the block `at`: the
/// verdicts are submitted; the pruned hashes whose verdict is "invalid",
/// followed by the known hashes, are told as in the block; the stale
/// transactions are cleared.
pub open spec fn resubmit_pruned_spec(
    c: Core,
    at: HashAndNumber,
    known: Seq<TxHash>,
    pruned_hashes: Seq<TxHash>,
    verdicts: Seq<VerdictView>,
    now: Timestamp,
) -> Core {
    let s = submit_spec(c, verdicts, now);
    clear_stale_spec(
        fire_pruned_spec(s.0, at, confirmed(pruned_hashes, s.1, s.1.len() as int) + known),
        at,
        now,
    )
}

/// The events that tell of each broadcast of `list`.
pub open spec fn broadcast_events(list: Seq<(TxHash, Vec<String>)>) -> Seq<PoolEvent> {
    list.map_values(|p: (TxHash, Vec<String>)| PoolEvent::Broadcast(p.0, peer_names(p.1@)))
}

/// The tags that the transaction of the pool with the hash `hash` provides.
pub open spec fn provided_tags(base: PoolState, hash: TxHash) -> Option<Seq<Seq<u8>>> {
    match lookup_pool(base, hash) {
        Some(t) => Some(t.provides),
        None => None,
    }
}

/// The bytes of a list of tags that may be absent.
pub open spec fn optional_tags(r: Option<Vec<Tag>>) -> Option<Seq<Seq<u8>>> {
    match r {
        Some(t) => Some(tag_views(t@)),
        None => None,
    }
}

/// Bans each stale record of `txs` in turn and returns the hashes of the
/// stale records.
pub fn ban_stale(
    rotator: &mut PoolRotator,
    now: Timestamp,
    block: BlockNumber,
    txs: &Vec<Transaction>,
) -> (r: Vec<TxHash>)
    requires
        old(rotator).wf(),
    ensures
        final(rotator).wf(),
        final(rotator)@ == stale_scan(old(rotator)@, now, block, tx_views(txs@)).0,
        r@ == stale_scan(old(rotator)@, now, block, tx_views(txs@)).1,
{
    let ghost start = rotator@;
    let ghost views = tx_views(txs@);
    let mut stale: Vec<TxHash> = Vec::new();
    let mut i: usize = 0;
    proof {
        assert(views.take(0) =~= Seq::<TxView>::empty());
    }
    while i < txs.len()
        invariant
            i <= txs.len(),
            views == tx_views(txs@),
            rotator.wf(),
            rotator@ == stale_scan(start, now, block, views.take(i as int)).0,
            stale@ == stale_scan(start, now, block, views.take(i as int)).1,
        decreases txs.len() - i,
    {
        proof {
            lemma_take_step(views, i as int);
        }
        if rotator.ban_if_stale(now, block, &txs[i]) {
            stale.push(txs[i].hash);
        }
        i += 1;
    }
    proof {
        lemma_take_all(views);
    }
    stale
}

/// The pool of validated transactions.
pub struct ValidatedPool<B: ChainApi, L: EventHandler> {
    api: Arc<B>,
    is_validator: IsValidator,
    options: Options,
    event_dispatcher: EventDispatcher<L>,
    pool: BasePool,
    import_notification_sinks: Vec<Sender<TxHash>>,
    notified: Ghost<Seq<TxHash>>,
    rotator: PoolRotator,
}

/// Number of slots of a channel of import notifications.
pub const CHANNEL_BUFFER_SIZE: usize = 1024;

impl<B: ChainApi, L: EventHandler> ValidatedPool<B, L> {
    /// The value of the pool.
    pub closed spec fn state(&self) -> Core {
        Core {
            base: self.pool@,
            rotator: self.rotator@,
            events: self.event_dispatcher.history(),
            included: self.event_dispatcher.included(),
            notified: self.notified@,
            options: self.options,
            is_validator: self.is_validator.0,
        }
    }

    /// Number of watchers that follow `hash`.
    pub closed spec fn watch_count(&self, hash: TxHash) -> nat {
        self.event_dispatcher.watch_count(hash)
    }

    /// The streams of import notifications, in the order in which they were
    /// opened.
    pub closed spec fn streams(&self) -> Seq<Sender<TxHash>> {
        self.import_notification_sinks@
    }

    /// Number of streams of import notifications.
    pub open spec fn sinks(&self) -> nat {
        self.streams().len()
    }

    /// The event handler to which every event is handed, if there is one.
    pub closed spec fn handler(&self) -> Option<L> {
        self.event_dispatcher.handler()
    }

    /// A notification was offered to every stream that `before` had, and
    /// the streams that are not disconnected stayed, in their order.
    pub open spec fn told_streams(&self, before: &Self) -> bool {
        exists|offered: Seq<Sender<TxHash>>, outcomes: Seq<Delivery>|
            offered.len() == before.streams().len() && outcomes.len() == offered.len()
                && self.streams() == #[trigger] connected(offered, outcomes)
    }

    /// This pool is `before` with one more watcher, of `hash`, and nothing
    /// else changed.
    pub open spec fn watches_since(&self, before: &Self, hash: TxHash) -> bool {
        &&& self.state() == before.state()
        &&& self.handler() == before.handler()
        &&& self.streams() == before.streams()
        &&& self.watch_count(hash) == before.watch_count(hash) + 1
        &&& forall|h: TxHash| h != hash ==> self.watch_count(h) == before.watch_count(h)
    }

    /// The parts of the pool are well-formed.
    pub closed spec fn wf(&self) -> bool {
        &&& self.pool.wf()
        &&& self.rotator.wf()
        &&& self.event_dispatcher.wf()
    }

    /// This pool is a later state of `before`: the event handler is the
    /// same, the events went on, no hash gained a watcher, and the
    /// transaction of every terminal event dispatched since has no watcher
    /// left.
    pub open spec fn follows(&self, before: &Self) -> bool {
        &&& self.handler() == before.handler()
        &&& before.state().events.len() <= self.state().events.len()
        &&& self.state().events.take(before.state().events.len() as int) == before.state().events
        &&& forall|h: TxHash| self.watch_count(h) <= before.watch_count(h)
        &&& forall|k: int|
            before.state().events.len() <= k < self.state().events.len()
                && crate::listener::is_terminal(#[trigger] self.state().events[k])
                ==> self.watch_count(crate::listener::subject(self.state().events[k])) == 0
    }

    /// Every pool is a later state of itself.
    pub proof fn lemma_follows_itself(&self)
        ensures
            self.follows(self),
    {
        assert(self.state().events.take(self.state().events.len() as int) =~= self.state().events);
    }

    /// A later state of a later state is a later state. So once a terminal
    /// event of a transaction is dispatched, no watcher that followed the
    /// transaction then is told anything more, whatever the pool does later.
    pub proof fn law_terminal_event_is_last(&self, middle: &Self, before: &Self)
        requires
            middle.follows(before),
            self.follows(middle),
        ensures
            self.follows(before),
    {
        let h0 = before.state().events;
        let h1 = middle.state().events;
        let h2 = self.state().events;
        assert(h2.take(h0.len() as int) =~= h0) by {
            assert(h1.take(h0.len() as int) == h0);
            assert(h2.take(h1.len() as int) == h1);
            assert forall|i: int| 0 <= i < h0.len() implies h2[i] == h0[i] by {
                assert(h1.take(h0.len() as int)[i] == h1[i]);
                assert(h2.take(h1.len() as int)[i] == h2[i]);
            }
        }
        assert forall|k: int|
            h0.len() <= k < h2.len() && crate::listener::is_terminal(
                #[trigger] h2[k],
            ) implies self.watch_count(crate::listener::subject(h2[k])) == 0 by {
            if k < h1.len() {
                assert(h2.take(h1.len() as int)[k] == h2[k]);
                assert(crate::listener::is_terminal(h1[k]));
                assert(middle.watch_count(crate::listener::subject(h1[k])) == 0);
            }
        }
    }

    /// In a well-formed pool the base pool obeys its invariant, the byte sums
    /// fit the machine's range and the rotator is within its bound.
    pub proof fn lemma_wf(&self)
        requires
            self.wf(),
        ensures
            crate::model::pool_wf(self.state().base),
            0 <= total_bytes(self.state().base) <= usize::MAX,
            self.state().rotator.bans.len() <= self.state().rotator.capacity,
    {
        self.pool.lemma_sums_fit();
    }

    /// Whether a batch of `bytes` bytes can be added without the byte sums
    /// leaving the machine's range.
    pub open spec fn has_room(&self, bytes: int) -> bool {
        total_bytes(self.state().base) + bytes <= usize::MAX
    }

    /// An empty pool with the given rotator and event handler.
    pub fn new_with_rotator(
        options: Options,
        is_validator: IsValidator,
        api: Arc<B>,
        rotator: PoolRotator,
        event_handler: Option<L>,
    ) -> (r: Self)
        requires
            rotator.wf(),
        ensures
            r.wf(),
            r.state() == (Core {
                base: crate::laws::empty_pool(options.reject_future_transactions),
                rotator: rotator@,
                events: Seq::empty(),
                included: Seq::empty(),
                notified: Seq::empty(),
                options,
                is_validator: is_validator.0,
            }),
            forall|h: TxHash| r.watch_count(h) == 0,
            r.sinks() == 0,
            r.handler() == event_handler,
            r.adapter() == *api,
    {
        ValidatedPool {
            is_validator,
            options,
            event_dispatcher: EventDispatcher::new_with_event_handler(event_handler),
            api,
            pool: BasePool::new(options.reject_future_transactions),
            import_notification_sinks: Vec::new(),
            notified: Ghost(Seq::empty()),
            rotator,
        }
    }

    /// An empty pool whose rotator remembers the usual number of bans.
    pub fn new_with_staticly_sized_rotator(options: Options, is_validator: IsValidator, api: Arc<B>) -> (r:
        Self)
        ensures
            r.wf(),
            r.state() == (Core {
                base: crate::laws::empty_pool(options.reject_future_transactions),
                rotator: RotatorState {
                    bans: Seq::empty(),
                    ban_time: options.ban_time,
                    hard_age: crate::rotator::NO_HARD_AGE,
                    capacity: crate::rotator::EXPECTED_SIZE,
                },
                events: Seq::empty(),
                included: Seq::empty(),
                notified: Seq::empty(),
                options,
                is_validator: is_validator.0,
            }),
            forall|h: TxHash| r.watch_count(h) == 0,
            r.sinks() == 0,
            r.handler() == None::<L>,
            r.adapter() == *api,
    {
        Self::new_with_rotator(options, is_validator, api, PoolRotator::new(options.ban_time), None)
    }

    /// An empty pool whose rotator remembers as many bans as the pool may
    /// hold transactions.
    pub fn new(options: Options, is_validator: IsValidator, api: Arc<B>) -> (r: Self)
        requires
            options.ready.count + options.future.count <= usize::MAX,
        ensures
            r.wf(),
            r.state() == (Core {
                base: crate::laws::empty_pool(options.reject_future_transactions),
                rotator: RotatorState {
                    bans: Seq::empty(),
                    ban_time: options.ban_time,
                    hard_age: crate::rotator::NO_HARD_AGE,
                    capacity: (options.ready.count + options.future.count) as usize,
                },
                events: Seq::empty(),
                included: Seq::empty(),
                notified: Seq::empty(),
                options,
                is_validator: is_validator.0,
            }),
            forall|h: TxHash| r.watch_count(h) == 0,
            r.sinks() == 0,
            r.handler() == None::<L>,
            r.adapter() == *api,
    {
        let total_count = options.total_count();
        Self::new_with_rotator(
            options,
            is_validator,
            api,
            PoolRotator::new_with_expected_size(options.ban_time, total_count),
            None,
        )
    }

    /// An empty pool that hands its events to `event_handler`.
    pub fn new_with_event_handler(
        options: Options,
        is_validator: IsValidator,
        api: Arc<B>,
        event_handler: L,
    ) -> (r: Self)
        requires
            options.ready.count + options.future.count <= usize::MAX,
        ensures
            r.wf(),
            r.state() == (Core {
                base: crate::laws::empty_pool(options.reject_future_transactions),
                rotator: RotatorState {
                    bans: Seq::empty(),
                    ban_time: options.ban_time,
                    hard_age: crate::rotator::NO_HARD_AGE,
                    capacity: (options.ready.count + options.future.count) as usize,
                },
                events: Seq::empty(),
                included: Seq::empty(),
                notified: Seq::empty(),
                options,
                is_validator: is_validator.0,
            }),
            forall|h: TxHash| r.watch_count(h) == 0,
            r.sinks() == 0,
            r.handler() == Some(event_handler),
            r.adapter() == *api,
    {
        let total_count = options.total_count();
        Self::new_with_rotator(
            options,
            is_validator,
            api,
            PoolRotator::new_with_expected_size(options.ban_time, total_count),
            Some(event_handler),
        )
    }

    /// A pool with the same transactions, bans, rules and chain adapter,
    /// without watchers and notification streams, that hands its events to
    /// `event_handler`.
    pub fn deep_clone_with_event_handler(&self, event_handler: L) -> (r: Self)
        requires
            self.wf(),
        ensures
            r.wf(),
            r.state() == (Core {
                events: Seq::empty(),
                included: Seq::empty(),
                notified: Seq::empty(),
                ..self.state()
            }),
            forall|h: TxHash| r.watch_count(h) == 0,
            r.sinks() == 0,
            r.handler() == Some(event_handler),
            r.adapter() == self.adapter(),
    {
        ValidatedPool {
            api: share(&self.api),
            is_validator: self.is_validator,
            options: self.options,
            event_dispatcher: EventDispatcher::new_with_event_handler(Some(event_handler)),
            pool: self.pool.duplicate(),
            import_notification_sinks: Vec::new(),
            notified: Ghost(Seq::empty()),
            rotator: self.rotator.duplicate(),
        }
    }

    /// A pool with the same transactions, bans, rules and chain adapter,
    /// without watchers, notification streams and event handler.
    pub fn clone(&self) -> (r: Self)
        requires
            self.wf(),
        ensures
            r.wf(),
            r.state() == (Core {
                events: Seq::empty(),
                included: Seq::empty(),
                notified: Seq::empty(),
                ..self.state()
            }),
            forall|h: TxHash| r.watch_count(h) == 0,
            r.sinks() == 0,
            r.handler() == None::<L>,
            r.adapter() == self.adapter(),
    {
        ValidatedPool {
            api: share(&self.api),
            is_validator: self.is_validator,
            options: self.options,
            event_dispatcher: EventDispatcher::new_with_event_handler(None),
            pool: self.pool.duplicate(),
            import_notification_sinks: Vec::new(),
            notified: Ghost(Seq::empty()),
            rotator: self.rotator.duplicate(),
        }
    }

    /// Sets whether this node may author blocks.
    pub fn set_is_validator(&mut self, is_validator: IsValidator)
        ensures
            final(self).state() == (Core { is_validator: is_validator.0, ..old(self).state() }),
            old(self).wf() ==> final(self).wf(),
            final(self).streams() == old(self).streams(),
            final(self).handler() == old(self).handler(),
            forall|h: TxHash| final(self).watch_count(h) == old(self).watch_count(h),
    {
        self.is_validator = is_validator;
    }

    /// The chain adapter of the pool.
    pub closed spec fn adapter(&self) -> B {
        *self.api
    }

    /// The chain adapter.
    pub fn api(&self) -> (r: &B)
        ensures
            *r == self.adapter(),
    {
        &self.api
    }

    /// The limits and rules of the pool.
    pub fn options(&self) -> (r: Options)
        ensures
            r == self.state().options,
    {
        self.options
    }

    /// Bans the hashes of `hashes` from `now` on.
    pub fn ban(&mut self, now: Timestamp, hashes: &[TxHash])
        requires
            old(self).wf(),
        ensures
            final(self).wf(),
            final(self).state() == (Core {
                rotator: ban_spec(old(self).state().rotator, now, hashes@),
                ..old(self).state()
            }),
            final(self).streams() == old(self).streams(),
            final(self).handler() == old(self).handler(),
            forall|h: TxHash| final(self).watch_count(h) == old(self).watch_count(h),
    {
        self.rotator.ban(now, hashes);
    }

    /// Whether `hash` is banned at `now`.
    pub fn is_banned(&self, now: Timestamp, hash: &TxHash) -> (r: bool)
        ensures
            r == is_banned_at(self.state().rotator.bans, now, *hash),
    {
        self.rotator.is_banned(now, hash)
    }

    /// A quick test before a transaction is validated: a banned transaction
    /// is refused as banned, unless bans are to be ignored, and one that the
    /// pool holds as already imported.
    pub fn check_is_known(&self, tx_hash: &TxHash, ignore_banned: bool, now: Timestamp) -> (r: Result<
        (),
        Error,
    >)
        ensures
            r == if !ignore_banned && is_banned_at(self.state().rotator.bans, now, *tx_hash) {
                Err::<(), Error>(Error::TemporarilyBanned)
            } else if has_hash(self.state().base.ready, *tx_hash) || has_hash(
                self.state().base.future,
                *tx_hash,
            ) {
                Err::<(), Error>(Error::AlreadyImported(*tx_hash))
            } else {
                Ok::<(), Error>(())
            },
    {
        if !ignore_banned && self.is_banned(now, tx_hash) {
            Err(Error::TemporarilyBanned)
        } else if self.pool.is_imported(tx_hash) {
            Err(Error::AlreadyImported(*tx_hash))
        } else {
            Ok(())
        }
    }

    /// Tells every stream of import notifications that `hash` is ready. A
    /// stream that is full misses the notification; one whose receiving half
    /// is gone is let go.
    fn notify_import(&mut self, hash: TxHash)
        ensures
            final(self).state() == (Core {
                notified: old(self).state().notified.push(hash),
                ..old(self).state()
            }),
            final(self).told_streams(old(self)),
            final(self).sinks() <= old(self).sinks(),
            old(self).wf() ==> final(self).wf(),
            forall|h: TxHash| final(self).watch_count(h) == old(self).watch_count(h),
            final(self).event_dispatcher == old(self).event_dispatcher,
    {
        let mut sinks: Vec<Sender<TxHash>> = Vec::new();
        core::mem::swap(&mut self.import_notification_sinks, &mut sinks);
        let ghost count = sinks@.len();
        let mut offered: Vec<Sender<TxHash>> = Vec::new();
        let mut outcomes: Vec<Delivery> = Vec::new();
        for sink in it: sinks
            invariant
                it.seq().len() == count,
                offered@.len() == it.index(),
                outcomes@.len() == it.index(),
        {
            let mut sink = sink;
            let outcome = try_notify(&mut sink, hash);
            offered.push(sink);
            outcomes.push(outcome);
        }
        proof {
            lemma_connected_len(offered@, outcomes@);
        }
        self.import_notification_sinks = keep_connected(offered, &outcomes);
        self.notified = Ghost(self.notified@.push(hash));
    }

    /// Submits one verdict at `now`.
    ///
    /// A valid transaction that must not be propagated is refused where this
    /// node authors no blocks. Any other valid transaction is imported into
    /// the base pool; if it is ready, the streams of import notifications
    /// are told, of which the full ones stay and the disconnected ones go,
    /// and the events of the import are dispatched. An invalid
    /// transaction is banned. An unknown one is reported to its watchers as
    /// invalid and is not banned.
    pub fn submit_one(&mut self, tx: ValidatedTransaction, now: Timestamp) -> (r: Result<
        ValidatedPoolSubmitOutcome,
        Error,
    >)
        requires
            old(self).wf(),
            old(self).has_room(verdict_bytes(tx@)),
        ensures
            final(self).wf(),
            final(self).follows(old(self)),
            final(self).state() == submit_one_spec(old(self).state(), tx@, now).0,
            outcome_view(r) == submit_one_spec(old(self).state(), tx@, now).1,
            r matches Ok(o) ==> !o.watched(),
            if final(self).state().notified == old(self).state().notified {
                final(self).streams() == old(self).streams()
            } else {
                final(self).told_streams(old(self))
            },
            final(self).sinks() <= old(self).sinks(),
            total_bytes(final(self).state().base) <= total_bytes(old(self).state().base)
                + verdict_bytes(tx@),
    {
        proof {
            self.event_dispatcher.lemma_follows_itself();
        }
        match tx {
            ValidatedTransaction::Valid(tx) => {
                let priority = tx.priority;
                if !tx.propagate && !self.is_validator.0 {
                    return Err(Error::Unactionable);
                }
                let imported = match self.pool.import(tx) {
                    Ok(imported) => imported,
                    Err(e) => {
                        return Err(e);
                    },
                };
                match &imported {
                    Imported::Ready { hash, .. } => {
                        let ghost before = *self;
                        self.notify_import(*hash);
                        proof {
                            assert(self.state().notified.len() == old(self).state().notified.len()
                                + 1);
                            assert(before.streams() == old(self).streams());
                        }
                    },
                    _ => {},
                }
                fire_events(&mut self.event_dispatcher, &imported);
                Ok(BaseSubmitOutcome::new(imported.hash(), Some(priority)))
            },
            ValidatedTransaction::Invalid(tx_hash, error) => {
                let mut one: Vec<TxHash> = Vec::new();
                one.push(tx_hash);
                proof {
                    assert(one@ =~= seq![tx_hash]);
                }
                self.rotator.ban(now, one.as_slice());
                Err(error)
            },
            ValidatedTransaction::Unknown(tx_hash, error) => {
                self.event_dispatcher.invalid(&tx_hash);
                Err(error)
            },
        }
    }

    /// Enforces the limits of the pool at `now`: the evicted transactions
    /// are banned and their watchers told. Returns their hashes.
    pub fn enforce_limits(&mut self, now: Timestamp) -> (r: Vec<TxHash>)
        requires
            old(self).wf(),
        ensures
            final(self).wf(),
            final(self).follows(old(self)),
            final(self).state() == enforce_spec(old(self).state(), now).0,
            r@ == enforce_spec(old(self).state(), now).1,
            !limits_exceeded(final(self).state()),
            final(self).sinks() == old(self).sinks(),
            total_bytes(final(self).state().base) <= total_bytes(old(self).state().base),
    {
        proof {
            self.event_dispatcher.lemma_follows_itself();
        }
        let status = self.pool.status();
        let ready_limit = self.options.ready;
        let future_limit = self.options.future;
        if ready_limit.is_exceeded(status.ready, status.ready_bytes) || future_limit.is_exceeded(
            status.future,
            status.future_bytes,
        ) {
            let evicted = self.pool.enforce_limits(&ready_limit, &future_limit);
            let removed = hashes(&evicted);
            self.rotator.ban(now, removed.as_slice());
            notify_all(&mut self.event_dispatcher, Notice::LimitsEnforced, &removed);
            removed
        } else {
            Vec::new()
        }
    }

    /// Submits a batch of verdicts at `now`.
    ///
    /// Each verdict is submitted by itself. If one was accepted, the limits
    /// are enforced, and every accepted transaction that was evicted is
    /// reported as dropped at once. The results come in the order of the
    /// verdicts.
    pub fn submit(&mut self, txs: Vec<ValidatedTransaction>, now: Timestamp) -> (r: Vec<
        Result<ValidatedPoolSubmitOutcome, Error>,
    >)
        requires
            old(self).wf(),
            old(self).has_room(batch_bytes(verdict_views(txs@))),
        ensures
            final(self).wf(),
            final(self).follows(old(self)),
            final(self).state() == submit_spec(old(self).state(), verdict_views(txs@), now).0,
            outcome_views(r@) == submit_spec(old(self).state(), verdict_views(txs@), now).1,
            any_ok(submit_each(old(self).state(), verdict_views(txs@), now).1) ==> !limits_exceeded(
                final(self).state(),
            ),
            r.len() == txs.len(),
            forall|i: int| 0 <= i < r.len() ==> (#[trigger] r@[i] matches Ok(o) ==> !o.watched()),
            final(self).sinks() <= old(self).sinks(),
            total_bytes(final(self).state().base) <= total_bytes(old(self).state().base)
                + batch_bytes(verdict_views(txs@)),
    {
        let ghost verdicts = verdict_views(txs@);
        let ghost orig = txs@;
        let ghost start = self.state();
        let ghost room = total_bytes(self.state().base) + batch_bytes(verdicts);
        let mut results: Vec<Result<ValidatedPoolSubmitOutcome, Error>> = Vec::new();
        let mut accepted: bool = false;
        proof {
            self.lemma_follows_itself();
            assert(verdicts.take(0) =~= Seq::<VerdictView>::empty());
            assert(outcome_views(results@) =~= Seq::<Result<Submitted, Error>>::empty());
        }
        for tx in it: txs
            invariant
                it.seq() == orig,
                verdicts == verdict_views(orig),
                self.wf(),
                self.follows(old(self)),
                self.sinks() <= old(self).sinks(),
                start == old(self).state(),
                room == total_bytes(start.base) + batch_bytes(verdicts),
                room <= usize::MAX,
                total_bytes(self.state().base) <= total_bytes(start.base) + batch_bytes(
                    verdicts.take(it.index() as int),
                ),
                self.state() == submit_each(start, verdicts.take(it.index() as int), now).0,
                outcome_views(results@) == submit_each(
                    start,
                    verdicts.take(it.index() as int),
                    now,
                ).1,
                results.len() == it.index(),
                accepted == any_ok(outcome_views(results@)),
                forall|k: int|
                    0 <= k < results.len() ==> (#[trigger] results@[k] matches Ok(o)
                        ==> !o.watched()),
        {
            let ghost i = it.index() as int;
            let ghost middle = *self;
            let ghost before = results@;
            proof {
                lemma_take_step(verdicts, i);
                assert(verdicts[i] == tx@);
                lemma_batch_bytes(verdicts, i + 1);
            }
            let result = self.submit_one(tx, now);
            proof {
                self.law_terminal_event_is_last(&middle, old(self));
                assert(outcome_views(before.push(result)) =~= outcome_views(before).push(
                    outcome_view(result),
                ));
                let after = outcome_views(before.push(result));
                if any_ok(outcome_views(before)) {
                    let k = choose|k: int|
                        0 <= k < outcome_views(before).len() && #[trigger] outcome_views(
                            before,
                        )[k] is Ok;
                    assert(after[k] is Ok);
                }
                if result is Ok {
                    assert(after[before.len() as int] is Ok);
                }
                if any_ok(after) {
                    let k = choose|k: int| 0 <= k < after.len() && #[trigger] after[k] is Ok;
                    if k < before.len() {
                        assert(outcome_views(before)[k] is Ok);
                    }
                }
            }
            if result.is_ok() {
                accepted = true;
            }
            results.push(result);
        }
        proof {
            lemma_take_all(verdicts);
            lemma_batch_bytes(verdicts, verdicts.len() as int);
        }
        if !accepted {
            return results;
        }
        let ghost middle = *self;
        let ghost each = outcome_views(results@);
        let removed = self.enforce_limits(now);
        proof {
            self.law_terminal_event_is_last(&middle, old(self));
        }
        let ghost all = results@;
        let evicted = hash_set_of(&removed);
        let mut settled: Vec<Result<ValidatedPoolSubmitOutcome, Error>> = Vec::new();
        for res in it: results
            invariant
                it.seq() == all,
                settled.len() == it.index(),
                forall|h: TxHash| evicted@.contains(h) <==> removed@.contains(h),
                forall|k: int|
                    0 <= k < settled.len() ==> outcome_view(#[trigger] settled@[k]) == settle(
                        outcome_view(all[k]),
                        removed@,
                    ),
                forall|k: int| 0 <= k < all.len() ==> (#[trigger] all[k] matches Ok(o) ==> !o.watched()),
                forall|k: int|
                    0 <= k < settled.len() ==> (#[trigger] settled@[k] matches Ok(o)
                        ==> !o.watched()),
        {
            let ghost i = it.index() as int;
            assert(all[i] == res);
            let out = match res {
                Ok(outcome) => if in_set(&evicted, outcome.hash()) {
                    Err(Error::ImmediatelyDropped)
                } else {
                    Ok(outcome)
                },
                Err(e) => Err(e),
            };
            settled.push(out);
        }
        proof {
            assert(outcome_views(settled@) =~= each.map_values(
                |r: Result<Submitted, Error>| settle(r, removed@),
            ));
        }
        settled
    }

    /// A new watcher of `tx_hash`.
    pub fn create_watcher(&mut self, tx_hash: TxHash) -> (r: Watcher)
        requires
            old(self).wf(),
        ensures
            final(self).wf(),
            final(self).state() == old(self).state(),
            r.watched() == tx_hash,
            final(self).watch_count(tx_hash) == old(self).watch_count(tx_hash) + 1,
            forall|h: TxHash| h != tx_hash ==> final(self).watch_count(h) == old(self).watch_count(h),
            final(self).watches_since(old(self), tx_hash),
    {
        self.event_dispatcher.create_watcher(tx_hash)
    }

    /// The hashes that have a watcher, each once.
    pub fn watched_transactions(&self) -> (r: Vec<TxHash>)
        requires
            self.wf(),
        ensures
            forall|h: TxHash| r@.contains(h) <==> self.watch_count(h) > 0,
            forall|i: int, j: int| 0 <= i < j < r.len() ==> r@[i] != r@[j],
    {
        self.event_dispatcher.watched_transactions()
    }

    /// Watches `hash` and then submits the valid transaction `tx` at `now`
    /// as a batch of its own. The watcher is made before the import, so that
    /// it misses no event; it comes with the outcome if the transaction is
    /// accepted.
    pub fn watch_and_submit(&mut self, hash: TxHash, tx: Transaction, now: Timestamp) -> (r: Result<
        ValidatedPoolSubmitOutcome,
        Error,
    >)
        requires
            old(self).wf(),
            old(self).has_room(tx.bytes as int),
        ensures
            final(self).wf(),
            final(self).state() == submit_spec(
                old(self).state(),
                seq![VerdictView::Valid(tx@)],
                now,
            ).0,
            outcome_view(r) == submit_spec(old(self).state(), seq![VerdictView::Valid(tx@)], now).1[0],
            r matches Ok(o) ==> o.watched() && o.held().watched() == hash,
            exists|mid: Self| #[trigger]
                mid.watches_since(old(self), hash) && final(self).follows(&mid),
            final(self).sinks() <= old(self).sinks(),
    {
        let watcher = self.create_watcher(hash);
        let ghost mid = *self;
        let mut batch: Vec<ValidatedTransaction> = Vec::new();
        batch.push(ValidatedTransaction::Valid(tx));
        proof {
            assert(verdict_views(batch@) =~= seq![VerdictView::Valid(tx@)]);
            let v = verdict_views(batch@);
            assert(v.drop_last() =~= Seq::<VerdictView>::empty());
            assert(batch_bytes(v.drop_last()) == 0);
            assert(batch_bytes(v) == tx.bytes);
        }
        let mut results = self.submit(batch, now);
        let ghost views = outcome_views(results@);
        assert(views[0] == outcome_view(results@[0]));
        assert(mid.watches_since(old(self), hash) && self.follows(&mid));
        match results.pop() {
            Some(Ok(outcome)) => Ok(outcome.with_watcher(watcher)),
            Some(Err(e)) => Err(e),
            None => unreached(),
        }
    }

    /// Submits a verdict at `now` and watches the transaction.
    ///
    /// For a valid transaction the chain adapter gives the hash to watch;
    /// the rest is [`Self::watch_and_submit`]: the watcher is made first and
    /// the transaction submitted then. An invalid transaction is banned, and
    /// an unknown one is reported to its watchers as invalid, as when they
    /// are submitted unwatched; neither gains a watcher.
    pub fn submit_and_watch(&mut self, tx: ValidatedTransaction, now: Timestamp) -> (r: Result<
        ValidatedPoolSubmitOutcome,
        Error,
    >)
        requires
            old(self).wf(),
            old(self).has_room(verdict_bytes(tx@)),
        ensures
            final(self).wf(),
            final(self).sinks() <= old(self).sinks(),
            final(self).handler() == old(self).handler(),
            match tx@ {
                VerdictView::Valid(t) => {
                    &&& final(self).state() == submit_spec(
                        old(self).state(),
                        seq![VerdictView::Valid(t)],
                        now,
                    ).0
                    &&& outcome_view(r) == submit_spec(
                        old(self).state(),
                        seq![VerdictView::Valid(t)],
                        now,
                    ).1[0]
                    &&& r matches Ok(o) ==> o.watched()
                    &&& exists|hash: TxHash, mid: Self| #[trigger]
                        mid.watches_since(old(self), hash) && final(self).follows(&mid) && (r matches Ok(
                            o,
                        ) ==> o.held().watched() == hash)
                },
                VerdictView::Invalid(hash, e) => {
                    &&& final(self).state() == (Core {
                        rotator: ban_spec(old(self).state().rotator, now, seq![hash]),
                        ..old(self).state()
                    })
                    &&& outcome_view(r) == Err::<Submitted, Error>(e)
                    &&& final(self).streams() == old(self).streams()
                    &&& forall|h: TxHash| final(self).watch_count(h) == old(self).watch_count(h)
                },
                VerdictView::Unknown(hash, e) => {
                    &&& final(self).state() == (Core {
                        events: old(self).state().events.push(PoolEvent::Invalid(hash)),
                        ..old(self).state()
                    })
                    &&& outcome_view(r) == Err::<Submitted, Error>(e)
                    &&& final(self).streams() == old(self).streams()
                    &&& final(self).follows(old(self))
                    &&& final(self).watch_count(hash) == 0
                    &&& forall|h: TxHash|
                        h != hash ==> final(self).watch_count(h) == old(self).watch_count(h)
                },
            },
    {
        match tx {
            ValidatedTransaction::Valid(tx) => {
                let hash = self.api.hash_and_length(&tx.data).0;
                let res = self.watch_and_submit(hash, tx, now);
                proof {
                    let mid = choose|mid: Self| #[trigger]
                        mid.watches_since(old(self), hash) && self.follows(&mid);
                    assert(mid.watches_since(old(self), hash) && self.follows(&mid) && (res matches Ok(
                        o,
                    ) ==> o.held().watched() == hash));
                }
                res
            },
            ValidatedTransaction::Invalid(hash, err) => {
                let mut one: Vec<TxHash> = Vec::new();
                one.push(hash);
                proof {
                    assert(one@ =~= seq![hash]);
                }
                self.rotator.ban(now, one.as_slice());
                Err(err)
            },
            ValidatedTransaction::Unknown(hash, err) => {
                self.event_dispatcher.invalid(&hash);
                Err(err)
            },
        }
    }

    /// For each hash, the tags that its transaction provides, if the pool
    /// holds the transaction.
    pub fn extrinsics_tags(&self, hashes: &[TxHash]) -> (r: Vec<Option<Vec<Tag>>>)
        ensures
            r.len() == hashes.len(),
            forall|i: int|
                0 <= i < hashes.len() ==> optional_tags(#[trigger] r@[i]) == provided_tags(
                    self.state().base,
                    hashes@[i],
                ),
    {
        let mut out: Vec<Option<Vec<Tag>>> = Vec::new();
        let mut i: usize = 0;
        while i < hashes.len()
            invariant
                i <= hashes.len(),
                out.len() == i,
                forall|k: int|
                    0 <= k < i ==> optional_tags(#[trigger] out@[k]) == provided_tags(
                        self.state().base,
                        hashes@[k],
                    ),
            decreases hashes.len() - i,
        {
            let tags = match self.pool.by_hash(&hashes[i]) {
                Some(tx) => Some(tx.provides),
                None => None,
            };
            out.push(tags);
            i += 1;
        }
        out
    }

    /// The ready transaction with the hash `hash`.
    pub fn ready_by_hash(&self, hash: &TxHash) -> (r: Option<Transaction>)
        ensures
            optional_view(r) == lookup(self.state().base.ready, *hash),
    {
        self.pool.ready_by_hash(hash)
    }

    /// The ready transactions in the order in which they are to be included.
    pub fn ready(&self) -> (r: Vec<Transaction>)
        ensures
            tx_views(r@) == ready_order(self.state().base),
    {
        self.pool.ready()
    }

    /// The hashes and the bodies of the future transactions, in the order
    /// in which they arrived.
    pub fn futures(&self) -> (r: Vec<(TxHash, Vec<u8>)>)
        ensures
            r.len() == self.state().base.future.len(),
            forall|i: int|
                0 <= i < r.len() ==> (#[trigger] r@[i]).0 == self.state().base.future[i].hash
                    && r@[i].1@ == self.state().base.future[i].data,
    {
        let list = self.pool.futures();
        let mut out: Vec<(TxHash, Vec<u8>)> = Vec::new();
        let mut i: usize = 0;
        while i < list.len()
            invariant
                i <= list.len(),
                out.len() == i,
                tx_views(list@) == self.state().base.future,
                forall|k: int|
                    0 <= k < i ==> (#[trigger] out@[k]).0 == self.state().base.future[k].hash
                        && out@[k].1@ == self.state().base.future[k].data,
            decreases list.len() - i,
        {
            assert(tx_views(list@)[i as int] == list@[i as int]@);
            out.push((list[i].hash, copy_bytes(&list[i].data)));
            i += 1;
        }
        assert(tx_views(list@).len() == list@.len());
        out
    }

    /// Counts and byte sums of the two partitions.
    pub fn status(&self) -> (r: PoolStatus)
        requires
            self.wf(),
        ensures
            r.ready == status_spec(self.state().base).ready,
            r.ready_bytes == status_spec(self.state().base).ready_bytes,
            r.future == status_spec(self.state().base).future,
            r.future_bytes == status_spec(self.state().base).future_bytes,
    {
        self.pool.status()
    }

    /// Prunes the tags that a block has consumed and tells the watchers.
    pub fn prune_tags(&mut self, tags: Vec<Tag>) -> (r: PruneStatus)
        requires
            old(self).wf(),
        ensures
            final(self).wf(),
            final(self).follows(old(self)),
            final(self).state() == prune_tags_spec(old(self).state(), tag_views(tags@)).0,
            r@ == prune_tags_spec(old(self).state(), tag_views(tags@)).1,
            final(self).sinks() == old(self).sinks(),
            total_bytes(final(self).state().base) <= total_bytes(old(self).state().base),
    {
        proof {
            self.lemma_follows_itself();
        }
        let status = self.pool.prune_tags(tags);
        let ghost start = self.event_dispatcher.history();
        let ghost promoted = imported_views(status.promoted@);
        let mut i: usize = 0;
        proof {
            assert(promoted.take(0) =~= Seq::<ImportedView>::empty());
            assert(start + all_fired(promoted.take(0)) =~= start);
        }
        while i < status.promoted.len()
            invariant
                i <= status.promoted.len(),
                promoted == imported_views(status.promoted@),
                self.wf(),
                self.follows(old(self)),
                self.state().base == prune_spec(old(self).state().base, tag_views(tags@)).0,
                self.state().rotator == old(self).state().rotator,
                self.state().options == old(self).state().options,
                self.state().is_validator == old(self).state().is_validator,
                self.state().included == old(self).state().included,
                self.state().notified == old(self).state().notified,
                self.sinks() == old(self).sinks(),
                start == old(self).state().events,
                self.state().events == start + all_fired(promoted.take(i as int)),
            decreases status.promoted.len() - i,
        {
            let ghost middle = *self;
            proof {
                lemma_take_step(promoted, i as int);
                assert(promoted[i as int] == status.promoted@[i as int]@);
                assert(start + all_fired(promoted.take(i as int + 1)) =~= (start + all_fired(
                    promoted.take(i as int),
                )) + fire_events_spec(promoted[i as int]));
            }
            fire_events(&mut self.event_dispatcher, &status.promoted[i]);
            proof {
                self.law_terminal_event_is_last(&middle, old(self));
            }
            i += 1;
        }
        proof {
            lemma_take_all(promoted);
        }
        let ghost middle = *self;
        notify_all(&mut self.event_dispatcher, Notice::Dropped, &status.failed);
        proof {
            self.law_terminal_event_is_last(&middle, old(self));
        }
        status
    }

    /// Removes the transactions named by `hashes` with their dependents,
    /// and tells `notice` of every removed transaction. With
    /// `ban_transactions`, the named hashes are banned at `now`; their
    /// dependents are not, so that they can be imported again.
    pub fn remove_subtree(
        &mut self,
        hashes: &[TxHash],
        ban_transactions: bool,
        notice: Notice,
        now: Timestamp,
    ) -> (r: Vec<Transaction>)
        requires
            old(self).wf(),
        ensures
            final(self).wf(),
            final(self).follows(old(self)),
            final(self).state() == remove_subtree_core(
                old(self).state(),
                hashes@,
                ban_transactions,
                notice,
                now,
            ).0,
            tx_views(r@) == remove_subtree_core(
                old(self).state(),
                hashes@,
                ban_transactions,
                notice,
                now,
            ).1,
            final(self).sinks() == old(self).sinks(),
            total_bytes(final(self).state().base) + sum_bytes(tx_views(r@)) == total_bytes(
                old(self).state().base,
            ),
    {
        if ban_transactions {
            self.rotator.ban(now, hashes);
        }
        let removed = self.pool.remove_subtree(hashes);
        let gone = crate::base_pool::hashes(&removed);
        notify_all(&mut self.event_dispatcher, notice, &gone);
        removed
    }

    /// Removes the invalid transactions named by `hashes` with their
    /// dependents. The named hashes are banned at `now`; every removed
    /// transaction is reported as invalid.
    pub fn remove_invalid(&mut self, hashes: &[TxHash], now: Timestamp) -> (r: Vec<Transaction>)
        requires
            old(self).wf(),
        ensures
            final(self).wf(),
            final(self).follows(old(self)),
            final(self).state() == remove_invalid_spec(old(self).state(), hashes@, now).0,
            tx_views(r@) == remove_invalid_spec(old(self).state(), hashes@, now).1,
            final(self).sinks() == old(self).sinks(),
            total_bytes(final(self).state().base) <= total_bytes(old(self).state().base),
    {
        proof {
            self.lemma_follows_itself();
        }
        if hashes.len() == 0 {
            let none: Vec<Transaction> = Vec::new();
            proof {
                assert(tx_views(none@) =~= Seq::<TxView>::empty());
            }
            return none;
        }
        let removed = self.remove_subtree(hashes, true, Notice::Invalid, now);
        proof {
            crate::facts::lemma_sum_nonneg(tx_views(removed@));
        }
        removed
    }

    /// Clears the transactions that are stale at the block `at` and the
    /// moment `now`, and forgets the bans that have ended.
    pub fn clear_stale(&mut self, at: &HashAndNumber, now: Timestamp)
        requires
            old(self).wf(),
        ensures
            final(self).wf(),
            final(self).follows(old(self)),
            final(self).state() == clear_stale_spec(old(self).state(), *at, now),
            final(self).sinks() == old(self).sinks(),
            total_bytes(final(self).state().base) <= total_bytes(old(self).state().base),
    {
        proof {
            self.lemma_follows_itself();
        }
        let number = at.number;
        let order = self.pool.ready();
        let to_remove = ban_stale(&mut self.rotator, now, number, &order);
        let waiting = self.pool.futures();
        let futures_to_remove = ban_stale(&mut self.rotator, now, number, &waiting);
        let ghost begun = *self;
        self.remove_invalid(to_remove.as_slice(), now);
        let ghost midway = *self;
        self.remove_invalid(futures_to_remove.as_slice(), now);
        proof {
            midway.law_terminal_event_is_last(&begun, old(self));
            self.law_terminal_event_is_last(&midway, old(self));
        }
        self.rotator.clear_timeouts(now);
    }

    /// Tells the watchers of `hashes` that their transactions are in the
    /// block `at`. A hash that occurs more than once is told once.
    pub fn fire_pruned(&mut self, at: &HashAndNumber, hashes: &Vec<TxHash>)
        requires
            old(self).wf(),
        ensures
            final(self).wf(),
            final(self).follows(old(self)),
            final(self).state() == fire_pruned_spec(old(self).state(), *at, hashes@),
            final(self).sinks() == old(self).sinks(),
    {
        let ghost start = self.state();
        let mut seen: HashSet<TxHash> = HashSet::new();
        let mut i: usize = 0;
        proof {
            self.lemma_follows_itself();
            assert(hashes@.take(0) =~= Seq::<TxHash>::empty());
            assert(start.events + in_block_events(at.hash, unique(hashes@.take(0)))
                =~= start.events);
            assert(start.included + inclusions(at.hash, unique(hashes@.take(0)))
                =~= start.included);
        }
        while i < hashes.len()
            invariant
                i <= hashes.len(),
                self.wf(),
                self.follows(old(self)),
                start == old(self).state(),
                self.sinks() == old(self).sinks(),
                forall|x: TxHash| seen@.contains(x) <==> hashes@.take(i as int).contains(x),
                self.state() == (Core {
                    events: start.events + in_block_events(
                        at.hash,
                        unique(hashes@.take(i as int)),
                    ),
                    included: start.included + inclusions(at.hash, unique(hashes@.take(i as int))),
                    ..start
                }),
            decreases hashes.len() - i,
        {
            let h: TxHash = hashes[i];
            let ghost middle = *self;
            let ghost before = unique(hashes@.take(i as int));
            proof {
                lemma_take_step(hashes@, i as int);
                assert(in_block_events(at.hash, before.push(h)) =~= in_block_events(
                    at.hash,
                    before,
                ).push(PoolEvent::InBlock(at.hash, h)));
                assert(inclusions(at.hash, before.push(h)) =~= inclusions(at.hash, before).push(
                    Inclusion { block: at.hash, hash: h },
                ));
                assert(start.events + in_block_events(at.hash, before.push(h)) =~= (start.events
                    + in_block_events(at.hash, before)).push(PoolEvent::InBlock(at.hash, h)));
                assert(start.included + inclusions(at.hash, before.push(h)) =~= (start.included
                    + inclusions(at.hash, before)).push(Inclusion { block: at.hash, hash: h }));
            }
            if !in_set(&seen, h) {
                self.event_dispatcher.pruned(at.hash, &h);
                seen.insert(h);
                proof {
                    self.law_terminal_event_is_last(&middle, old(self));
                }
            }
            proof {
                assert forall|x: TxHash| seen@.contains(x) <==> hashes@.take(
                    i as int + 1,
                ).contains(x) by {
                    lemma_take_contains(hashes@, i as int, x);
                }
            }
            i += 1;
        }
        proof {
            lemma_take_all(hashes@);
        }
    }

    /// Resubmits, at the block `at`, transactions that were pruned and
    /// validated again. The pruned hashes whose verdict is "invalid" are in
    /// the block for good; they and the hashes known to be in the block are
    /// told so. Then the stale transactions are cleared.
    pub fn resubmit_pruned(
        &mut self,
        at: &HashAndNumber,
        known_imported_hashes: Vec<TxHash>,
        pruned_hashes: Vec<TxHash>,
        pruned_xts: Vec<ValidatedTransaction>,
        now: Timestamp,
    )
        requires
            old(self).wf(),
            pruned_hashes.len() == pruned_xts.len(),
            old(self).has_room(batch_bytes(verdict_views(pruned_xts@))),
        ensures
            final(self).wf(),
            final(self).follows(old(self)),
            final(self).state() == resubmit_pruned_spec(
                old(self).state(),
                *at,
                known_imported_hashes@,
                pruned_hashes@,
                verdict_views(pruned_xts@),
                now,
            ),
            final(self).sinks() <= old(self).sinks(),
    {
        let results = self.submit(pruned_xts, now);
        let ghost begun = *self;
        let ghost views = outcome_views(results@);
        let mut all: Vec<TxHash> = Vec::new();
        let mut i: usize = 0;
        while i < results.len()
            invariant
                i <= results.len(),
                results.len() == pruned_hashes.len(),
                views == outcome_views(results@),
                all@ == confirmed(pruned_hashes@, views, i as int),
            decreases results.len() - i,
        {
            assert(views[i as int] == outcome_view(results@[i as int]));
            let invalid: bool = match &results[i] {
                Err(e) => e.is_invalid_transaction(),
                Ok(_) => false,
            };
            if invalid {
                all.push(pruned_hashes[i]);
            }
            i += 1;
        }
        let mut known = known_imported_hashes;
        all.append(&mut known);
        self.fire_pruned(at, &all);
        let ghost midway = *self;
        self.clear_stale(at, now);
        proof {
            midway.law_terminal_event_is_last(&begun, old(self));
            self.law_terminal_event_is_last(&midway, old(self));
        }
    }

    /// A new stream of the hashes of the transactions that become ready
    /// by import.
    pub fn import_notification_stream(&mut self) -> (r: Receiver<TxHash>)
        ensures
            final(self).state() == old(self).state(),
            final(self).sinks() == old(self).sinks() + 1,
            final(self).streams().drop_last() == old(self).streams(),
            final(self).handler() == old(self).handler(),
            old(self).wf() ==> final(self).wf(),
            forall|h: TxHash| final(self).watch_count(h) == old(self).watch_count(h),
    {
        let pair = open_channel(CHANNEL_BUFFER_SIZE);
        self.import_notification_sinks.push(pair.0);
        pair.1
    }

    /// The transactions of `propagated` were broadcast to the peers named
    /// with them.
    pub fn on_broadcasted(&mut self, propagated: Vec<(TxHash, Vec<String>)>)
        requires
            old(self).wf(),
        ensures
            final(self).wf(),
            final(self).follows(old(self)),
            final(self).state() == (Core {
                events: old(self).state().events + broadcast_events(propagated@),
                ..old(self).state()
            }),
            final(self).sinks() == old(self).sinks(),
    {
        let ghost start = self.state();
        let ghost orig = propagated@;
        proof {
            self.lemma_follows_itself();
            assert(orig.take(0) =~= Seq::<(TxHash, Vec<String>)>::empty());
            assert(start.events + broadcast_events(orig.take(0)) =~= start.events);
        }
        for pair in it: propagated
            invariant
                it.seq() == orig,
                self.wf(),
                self.follows(old(self)),
                start == old(self).state(),
                self.sinks() == old(self).sinks(),
                self.state() == (Core {
                    events: start.events + broadcast_events(orig.take(it.index() as int)),
                    ..start
                }),
        {
            let ghost i = it.index() as int;
            let ghost middle = *self;
            proof {
                lemma_take_step(orig, i);
                assert(orig[i] == pair);
                assert(start.events + broadcast_events(orig.take(i + 1)) =~= (start.events
                    + broadcast_events(orig.take(i))).push(
                    PoolEvent::Broadcast(pair.0, peer_names(pair.1@)),
                ));
            }
            let hash: TxHash = pair.0;
            self.event_dispatcher.broadcasted(&hash, pair.1);
            proof {
                self.law_terminal_event_is_last(&middle, old(self));
            }
        }
        proof {
            lemma_take_all(orig);
        }
    }

    /// The block `block_hash` is final: the watchers of the transactions
    /// that appeared in it are told and let go.
    pub fn on_block_finalized(&mut self, block_hash: BlockHash) -> (r: Result<(), Error>)
        requires
            old(self).wf(),
        ensures
            final(self).wf(),
            final(self).follows(old(self)),
            r is Ok,
            final(self).state() == (Core {
                events: old(self).state().events + finalizations(
                    old(self).state().included.filter(in_block(block_hash)),
                ),
                included: old(self).state().included.filter(in_other_block(block_hash)),
                ..old(self).state()
            }),
            final(self).sinks() == old(self).sinks(),
    {
        self.event_dispatcher.finalized(block_hash);
        Ok(())
    }

    /// The block `block_hash` was retracted: the watchers of the
    /// transactions that appeared in it are told.
    pub fn on_block_retracted(&mut self, block_hash: BlockHash)
        requires
            old(self).wf(),
        ensures
            final(self).wf(),
            final(self).follows(old(self)),
            final(self).state() == (Core {
                events: old(self).state().events + retractions(
                    old(self).state().included.filter(in_block(block_hash)),
                ),
                included: old(self).state().included.filter(in_other_block(block_hash)),
                ..old(self).state()
            }),
            final(self).sinks() == old(self).sinks(),
    {
        self.event_dispatcher.retracted(block_hash)
    }

    /// Tells again that every ready transaction is ready and every future
    /// one waits, so that the watchers of a cloned pool see where it stands.
    pub fn retrigger_notifications(&mut self)
        requires
            old(self).wf(),
        ensures
            final(self).wf(),
            final(self).follows(old(self)),
            final(self).state() == (Core {
                events: old(self).state().events + notices(
                    Notice::Ready,
                    hashes_of(ready_order(old(self).state().base)),
                ) + notices(Notice::Future, hashes_of(old(self).state().base.future)),
                ..old(self).state()
            }),
            final(self).sinks() == old(self).sinks(),
    {
        let ready = hashes(&self.pool.ready());
        let waiting = hashes(&self.pool.futures());
        notify_all(&mut self.event_dispatcher, Notice::Ready, &ready);
        let ghost middle = *self;
        notify_all(&mut self.event_dispatcher, Notice::Future, &waiting);
        proof {
            self.law_terminal_event_is_last(&middle, old(self));
        }
    }

    /// Resubmits transactions that were validated again, for one after a
    /// reorganisation of the chain.
    ///
    /// Every transaction that has a new verdict is removed from the pool
    /// with its dependents, and what was removed is imported again: with
    /// its new verdict where it has one, else as it was. While this goes on
    /// the pool holds future transactions whatever its rules say, because a
    /// dependent may come before what it depends on. The watchers are told
    /// where each transaction stands at the end, unless it was removed and
    /// is ready again.
    pub fn resubmit(&mut self, updated_transactions: IndexMap<TxHash, ValidatedTransaction>)
        requires
            old(self).wf(),
            old(self).has_room(entries_bytes(map_entries(updated_transactions))),
        ensures
            final(self).wf(),
            final(self).follows(old(self)),
            final(self).state() == resubmit_spec(
                old(self).state(),
                map_entries(updated_transactions),
            ),
            final(self).sinks() == old(self).sinks(),
    {
        let mut map = updated_transactions;
        let ghost entries0 = map_entries(map);
        let ghost goal = gather(self.pool@, entries0, Seq::empty());
        let ghost cap = total_bytes(self.pool@) + entries_bytes(entries0);
        let mut queue: Vec<(TxHash, ValidatedTransaction)> = Vec::new();
        proof {
            self.lemma_follows_itself();
            assert(queue_views(queue@) =~= Seq::<Entry>::empty());
        }
        let mut next = first_key(&map);
        while next.is_some()
            invariant
                self.wf(),
                self.rotator == old(self).rotator,
                self.event_dispatcher == old(self).event_dispatcher,
                self.options == old(self).options,
                self.is_validator == old(self).is_validator,
                self.import_notification_sinks == old(self).import_notification_sinks,
                self.notified == old(self).notified,
                self.pool@.reject_future == old(self).pool@.reject_future,
                next == if map_entries(map).len() > 0 {
                    Some(map_entries(map)[0].hash)
                } else {
                    None
                },
                goal == gather(self.pool@, map_entries(map), queue_views(queue@)),
                cap <= usize::MAX,
                total_bytes(self.pool@) + entries_bytes(queue_views(queue@)) + entries_bytes(
                    map_entries(map),
                ) <= cap,
            decreases map_entries(map).len(),
        {
            let hash: TxHash = next.unwrap();
            let mut one: Vec<TxHash> = Vec::new();
            one.push(hash);
            let ghost before_entries = map_entries(map);
            let ghost before_queue = queue_views(queue@);
            proof {
                assert(one@ =~= seq![hash]);
            }
            let removed = self.pool.remove_subtree(one.as_slice());
            let ghost removed_all = removed@;
            let ghost removed_views = tx_views(removed@);
            proof {
                assert(removed_views.take(0) =~= Seq::<TxView>::empty());
                crate::facts::lemma_sum_prefix(removed_views, 0);
                assert(crate::model::sum_bytes(removed_views.take(0)) == 0);
            }
            for removed_tx in it: removed
                invariant
                    it.seq() == removed_all,
                    removed_views == tx_views(removed_all),
                    map_entries(map) == requeue(
                        before_entries,
                        before_queue,
                        removed_views.take(it.index() as int),
                    ).0,
                    queue_views(queue@) == requeue(
                        before_entries,
                        before_queue,
                        removed_views.take(it.index() as int),
                    ).1,
                    total_bytes(self.pool@) + sum_bytes(removed_views) - sum_bytes(
                        removed_views.take(it.index() as int),
                    ) + entries_bytes(queue_views(queue@)) + entries_bytes(map_entries(map)) <= cap,
            {
                let ghost i = it.index() as int;
                let ghost entries_now = map_entries(map);
                let ghost queue_now = queue@;
                proof {
                    lemma_take_step(removed_views, i);
                    assert(removed_views[i] == removed_tx@);
                    crate::facts::lemma_sum_push(removed_views.take(i), removed_tx@);
                    lemma_key_position(entries_now, removed_tx.hash);
                    if key_position(entries_now, removed_tx.hash) is Some {
                        lemma_entries_bytes_remove(
                            entries_now,
                            key_position(entries_now, removed_tx.hash).unwrap(),
                        );
                    }
                }
                let h: TxHash = removed_tx.hash;
                let entry = match shift_remove(&mut map, &h) {
                    Some(updated) => (h, updated),
                    None => (h, ValidatedTransaction::Valid(removed_tx)),
                };
                proof {
                    lemma_queue_push(queue_now, entry);
                    crate::facts::lemma_push_drop_last(
                        queue_views(queue_now),
                        Entry { hash: entry.0, verdict: entry.1@ },
                    );
                }
                queue.push(entry);
            }
            proof {
                lemma_take_all(removed_views);
                lemma_gather_step(before_entries, before_queue, removed_views);
                let q = requeue(before_entries, before_queue, removed_views);
                lemma_key_position(q.0, hash);
                if key_position(q.0, hash) is Some {
                    lemma_entries_bytes_remove(q.0, key_position(q.0, hash).unwrap());
                    lemma_entries_bytes_nonneg(q.0.remove(key_position(q.0, hash).unwrap()));
                }
            }
            shift_remove(&mut map, &hash);
            next = first_key(&map);
        }
        // What was removed is imported again.
        let reject = self.pool.suspend_future_rejection();
        let ghost enabled = self.pool@;
        let ghost queued = queue_views(queue@);
        let ghost queue_all = queue@;
        let ghost keys = keys_of(queued);
        let mut known: HashSet<TxHash> = HashSet::new();
        let mut k: usize = 0;
        while k < queue.len()
            invariant
                k <= queue.len(),
                queued == queue_views(queue@),
                keys == keys_of(queued),
                forall|x: TxHash| known@.contains(x) <==> keys.take(k as int).contains(x),
            decreases queue.len() - k,
        {
            known.insert(queue[k].0);
            proof {
                assert forall|x: TxHash| known@.contains(x) <==> keys.take(k as int + 1).contains(
                    x,
                ) by {
                    lemma_take_contains(keys, k as int, x);
                }
            }
            k += 1;
        }
        proof {
            lemma_take_all(keys_of(queued));
            assert(queued.take(0) =~= Seq::<Entry>::empty());
            lemma_entries_bytes_nonneg(map_entries(map));
        }
        let mut marks: Vec<Mark> = Vec::new();
        for pair in it: queue
            invariant
                it.seq() == queue_all,
                queued == queue_views(queue_all),
                self.wf(),
                self.rotator == old(self).rotator,
                self.event_dispatcher == old(self).event_dispatcher,
                self.options == old(self).options,
                self.is_validator == old(self).is_validator,
                self.import_notification_sinks == old(self).import_notification_sinks,
                self.notified == old(self).notified,
                self.pool@ == reimport(enabled, queued.take(it.index() as int), Seq::empty()).0,
                marks@ == reimport(enabled, queued.take(it.index() as int), Seq::empty()).1,
                cap <= usize::MAX,
                total_bytes(self.pool@) + entries_bytes(queued) - entries_bytes(
                    queued.take(it.index() as int),
                ) <= cap,
        {
            let ghost i = it.index() as int;
            proof {
                lemma_take_step(queued, i);
                assert(queued[i] == (Entry { hash: pair.0, verdict: pair.1@ }));
                lemma_entries_bytes_prefix(queued, i + 1);
                lemma_entries_bytes_prefix(queued, i);
            }
            let tx_hash: TxHash = pair.0;
            match pair.1 {
                ValidatedTransaction::Valid(tx) => match self.pool.import(tx) {
                    Ok(imported) => match imported {
                        Imported::Ready { promoted, failed, removed, .. } => {
                            set_mark(&mut marks, tx_hash, Standing::Ready);
                            set_marks(&mut marks, &promoted, Standing::Ready);
                            set_marks(&mut marks, &failed, Standing::Failed);
                            let usurped = hashes(&removed);
                            set_marks(&mut marks, &usurped, Standing::Dropped);
                        },
                        Imported::Future { .. } => {
                            set_mark(&mut marks, tx_hash, Standing::Future);
                        },
                    },
                    Err(_) => {
                        set_mark(&mut marks, tx_hash, Standing::Failed);
                    },
                },
                _ => {
                    set_mark(&mut marks, tx_hash, Standing::Failed);
                },
            }
        }
        proof {
            lemma_take_all(queued);
        }
        if reject {
            let cleared = self.pool.clear_future();
            let dropped = hashes(&cleared);
            set_marks(&mut marks, &dropped, Standing::Dropped);
        }
        self.pool.restore_future_rejection(reject);
        // The watchers are told where the transactions stand.
        let ghost start = self.event_dispatcher.history();
        let ghost base_now = self.pool@;
        let mut i: usize = 0;
        proof {
            assert(marks@.take(0) =~= Seq::<Mark>::empty());
            assert(start + announce(marks@.take(0), keys) =~= start);
        }
        while i < marks.len()
            invariant
                i <= marks.len(),
                self.wf(),
                self.follows(old(self)),
                self.pool@ == base_now,
                self.rotator == old(self).rotator,
                self.options == old(self).options,
                self.is_validator == old(self).is_validator,
                self.import_notification_sinks == old(self).import_notification_sinks,
                self.notified == old(self).notified,
                self.event_dispatcher.included() == old(self).event_dispatcher.included(),
                start == old(self).event_dispatcher.history(),
                forall|x: TxHash| known@.contains(x) <==> keys.contains(x),
                self.event_dispatcher.history() == start + announce(marks@.take(i as int), keys),
            decreases marks.len() - i,
        {
            let entry = marks[i];
            let ghost middle = *self;
            proof {
                lemma_take_step(marks@, i as int);
                if is_news(entry, keys) {
                    assert(start + announce(marks@.take(i as int + 1), keys) =~= (start
                        + announce(marks@.take(i as int), keys)).push(
                        notice_event(standing_notice(entry.standing), entry.hash),
                    ));
                }
            }
            let ready_again: bool = match entry.standing {
                Standing::Ready => in_set(&known, entry.hash),
                _ => false,
            };
            if !ready_again {
                let notice = match entry.standing {
                    Standing::Future => Notice::Future,
                    Standing::Ready => Notice::Ready,
                    Standing::Dropped => Notice::Dropped,
                    Standing::Failed => Notice::Invalid,
                };
                notify(&mut self.event_dispatcher, notice, entry.hash);
                proof {
                    self.law_terminal_event_is_last(&middle, old(self));
                }
            }
            i += 1;
        }
        proof {
            lemma_take_all(marks@);
        }
    }

    /// Whether the batch `txs` can be submitted without the byte sums of the
    /// pool leaving the machine's range.
    pub fn fits(&self, txs: &Vec<ValidatedTransaction>) -> (r: bool)
        requires
            self.wf(),
        ensures
            r == self.has_room(batch_bytes(verdict_views(txs@))),
    {
        let ghost verdicts = verdict_views(txs@);
        let status = self.pool.status();
        proof {
            self.pool.lemma_sums_fit();
            assert(verdicts.take(0) =~= Seq::<VerdictView>::empty());
        }
        let mut sum: usize = status.ready_bytes + status.future_bytes;
        let mut i: usize = 0;
        while i < txs.len()
            invariant
                i <= txs.len(),
                verdicts == verdict_views(txs@),
                sum == total_bytes(self.state().base) + batch_bytes(verdicts.take(i as int)),
            decreases txs.len() - i,
        {
            proof {
                lemma_take_step(verdicts, i as int);
                lemma_batch_bytes(verdicts, i as int + 1);
            }
            let bytes: usize = match &txs[i] {
                ValidatedTransaction::Valid(tx) => tx.bytes,
                _ => 0,
            };
            match sum.checked_add(bytes) {
                Some(more) => {
                    sum = more;
                },
                None => {
                    return false;
                },
            }
            i += 1;
        }
        proof {
            lemma_take_all(verdicts);
        }
        true
    }

    /// Resubmits the transactions of `updated_transactions` if the byte sums
    /// of the pool cannot leave the machine's range by it, and says whether
    /// it did. Otherwise the pool stays as it was.
    pub fn try_resubmit(&mut self, updated_transactions: IndexMap<TxHash, ValidatedTransaction>) -> (r:
        bool)
        requires
            old(self).wf(),
        ensures
            final(self).wf(),
            final(self).follows(old(self)),
            r == old(self).has_room(entries_bytes(map_entries(updated_transactions))),
            final(self).state() == if r {
                resubmit_spec(old(self).state(), map_entries(updated_transactions))
            } else {
                old(self).state()
            },
            final(self).sinks() == old(self).sinks(),
    {
        let ghost entries = map_entries(updated_transactions);
        let status = self.pool.status();
        proof {
            self.lemma_follows_itself();
            self.pool.lemma_sums_fit();
            assert(entries.take(0) =~= Seq::<Entry>::empty());
        }
        let mut sum: usize = status.ready_bytes + status.future_bytes;
        let count = entry_count(&updated_transactions);
        let mut i: usize = 0;
        while i < count
            invariant
                i <= count,
                count == entries.len(),
                entries == map_entries(updated_transactions),
                sum == total_bytes(self.state().base) + entries_bytes(entries.take(i as int)),
                *self == *old(self),
                self.wf(),
                self.follows(old(self)),
            decreases count - i,
        {
            proof {
                lemma_take_step(entries, i as int);
                lemma_entries_bytes_prefix(entries, i as int + 1);
            }
            let bytes: usize = match verdict_at(&updated_transactions, i) {
                Some(ValidatedTransaction::Valid(tx)) => tx.bytes,
                _ => 0,
            };
            match sum.checked_add(bytes) {
                Some(more) => {
                    sum = more;
                },
                None => {
                    return false;
                },
            }
            i += 1;
        }
        proof {
            lemma_take_all(entries);
        }
        self.resubmit(updated_transactions);
        true
    }
}

} // verus!
