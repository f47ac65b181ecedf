//! The mathematical model of the dependency graph: what each operation of the
//! base pool does to the ready and future partitions.

use vstd::prelude::*;
use crate::error::Error;
use crate::types::{Priority, TxHash, TxView};

verus! {

/// The hashes of a list of records, in order.
pub open spec fn hashes_of(txs: Seq<TxView>) -> Seq<TxHash> {
    txs.map_values(|t: TxView| t.hash)
}

/// Mathematical value of the base pool.
pub struct PoolState {
    /// Records whose requirements are all met, in the order they became ready.
    pub ready: Seq<TxView>,
    /// Records with an unmet requirement, in the order they arrived.
    pub future: Seq<TxView>,
    /// Tags that the chain has consumed.
    pub consumed: Seq<Seq<u8>>,
    /// Whether records with unmet requirements are refused.
    pub reject_future: bool,
}

/// Whether some record of `txs` has the hash `hash`.
pub open spec fn has_hash(txs: Seq<TxView>, hash: TxHash) -> bool {
    exists|i: int| 0 <= i < txs.len() && (#[trigger] txs[i]).hash == hash
}

/// Whether `tx` provides one of `tags`.
pub open spec fn provides_any(tx: TxView, tags: Seq<Seq<u8>>) -> bool {
    exists|t: Seq<u8>| #[trigger] tx.provides.contains(t) && tags.contains(t)
}

/// Whether some record of `txs` provides `tag`.
pub open spec fn provided_by(txs: Seq<TxView>, tag: Seq<u8>) -> bool {
    exists|i: int| 0 <= i < txs.len() && (#[trigger] txs[i]).provides.contains(tag)
}

/// Whether `tag` is satisfied: consumed by the chain or provided by a ready record.
pub open spec fn tag_met(ready: Seq<TxView>, consumed: Seq<Seq<u8>>, tag: Seq<u8>) -> bool {
    consumed.contains(tag) || provided_by(ready, tag)
}

/// Whether every requirement of `tx` is satisfied.
pub open spec fn all_met(ready: Seq<TxView>, consumed: Seq<Seq<u8>>, tx: TxView) -> bool {
    forall|k: int| 0 <= k < tx.requires.len() ==> tag_met(ready, consumed, #[trigger] tx.requires[k])
}

/// The test "provides one of `tags`".
pub open spec fn hits(tags: Seq<Seq<u8>>) -> spec_fn(TxView) -> bool {
    |r: TxView| provides_any(r, tags)
}

/// The test "provides none of `tags`".
pub open spec fn misses(tags: Seq<Seq<u8>>) -> spec_fn(TxView) -> bool {
    |r: TxView| !provides_any(r, tags)
}

/// The test "has a hash of `hashes`".
pub open spec fn is_named(hashes: Seq<TxHash>) -> spec_fn(TxView) -> bool {
    |r: TxView| hashes.contains(r.hash)
}

/// The test "has no hash of `hashes`".
pub open spec fn is_unnamed(hashes: Seq<TxHash>) -> spec_fn(TxView) -> bool {
    |r: TxView| !hashes.contains(r.hash)
}

/// The test "is the hash of no record of `gone`".
pub open spec fn absent_from(gone: Seq<TxView>) -> spec_fn(TxHash) -> bool {
    |h: TxHash| !has_hash(gone, h)
}

/// The records of `txs` that provide one of `tags`, in order.
pub open spec fn rivals(txs: Seq<TxView>, tags: Seq<Seq<u8>>) -> Seq<TxView> {
    txs.filter(hits(tags))
}

/// The records of `txs` that provide none of `tags`, in order.
pub open spec fn bystanders(txs: Seq<TxView>, tags: Seq<Seq<u8>>) -> Seq<TxView> {
    txs.filter(misses(tags))
}

/// The records of `txs` whose hash is in `hashes`, in order.
pub open spec fn named(txs: Seq<TxView>, hashes: Seq<TxHash>) -> Seq<TxView> {
    txs.filter(is_named(hashes))
}

/// The records of `txs` whose hash is not in `hashes`, in order.
pub open spec fn unnamed(txs: Seq<TxView>, hashes: Seq<TxHash>) -> Seq<TxView> {
    txs.filter(is_unnamed(hashes))
}

/// The highest priority in `txs`; zero where there is none.
pub open spec fn max_priority(txs: Seq<TxView>) -> Priority
    decreases txs.len(),
{
    if txs.len() == 0 {
        0
    } else {
        let rest = max_priority(txs.drop_last());
        if txs.last().priority > rest {
            txs.last().priority
        } else {
            rest
        }
    }
}

/// The sum of the encoded lengths of `txs`.
pub open spec fn sum_bytes(txs: Seq<TxView>) -> int
    decreases txs.len(),
{
    if txs.len() == 0 {
        0
    } else {
        sum_bytes(txs.drop_last()) + txs.last().bytes
    }
}

/// The sum of the encoded lengths of all records of the pool.
pub open spec fn total_bytes(s: PoolState) -> int {
    sum_bytes(s.ready) + sum_bytes(s.future)
}

/// `a` comes before `b` where both can be taken: higher priority first, then
/// the earlier arrival, then the smaller hash.
pub open spec fn better(a: TxView, b: TxView) -> bool {
    a.priority > b.priority || (a.priority == b.priority && (a.source.timestamp
        < b.source.timestamp || (a.source.timestamp == b.source.timestamp && a.hash < b.hash)))
}

/// `a` is evicted before `b`: lower priority first, then the older arrival,
/// then the smaller hash.
pub open spec fn worse(a: TxView, b: TxView) -> bool {
    a.priority < b.priority || (a.priority == b.priority && (a.source.timestamp
        < b.source.timestamp || (a.source.timestamp == b.source.timestamp && a.hash < b.hash)))
}

/// What is left of the ready partition, and what leaves it, when the records
/// named by `doomed` are taken out.
pub struct Sweep {
    /// Records that stay, in order.
    pub kept: Seq<TxView>,
    /// Records named by `doomed`.
    pub roots: Seq<TxView>,
    /// Records that lost a requirement.
    pub cascaded: Seq<TxView>,
}

/// Walks the ready partition in order. A record stays if it is not doomed and
/// every requirement of it is still met by the records that stayed before it.
pub open spec fn sweep(ready: Seq<TxView>, consumed: Seq<Seq<u8>>, doomed: Seq<TxHash>) -> Sweep
    decreases ready.len(),
{
    if ready.len() == 0 {
        Sweep { kept: Seq::empty(), roots: Seq::empty(), cascaded: Seq::empty() }
    } else {
        let before = sweep(ready.drop_last(), consumed, doomed);
        let tx = ready.last();
        if doomed.contains(tx.hash) {
            Sweep { roots: before.roots.push(tx), ..before }
        } else if all_met(before.kept, consumed, tx) {
            Sweep { kept: before.kept.push(tx), ..before }
        } else {
            Sweep { cascaded: before.cascaded.push(tx), ..before }
        }
    }
}

/// What is left of the ready partition, and what leaves it, when `rivals`
/// are usurped: without rivals nothing leaves.
pub open spec fn usurp(ready: Seq<TxView>, consumed: Seq<Seq<u8>>, rivals: Seq<TxView>) -> Sweep {
    if rivals.len() == 0 {
        Sweep { kept: ready, roots: Seq::empty(), cascaded: Seq::empty() }
    } else {
        sweep(ready, consumed, hashes_of(rivals))
    }
}

/// What happens when a record with met requirements is put into the ready
/// partition.
pub enum Placement {
    /// The record is ready. Its rivals are usurped and their dependents cascade.
    Placed { ready: Seq<TxView>, usurped: Seq<TxView>, cascaded: Seq<TxView> },
    /// A rival has at least the record's priority.
    Outbid { old: Priority },
    /// Usurping the rivals would take away what the record itself requires, or
    /// the guarded record.
    Cycle,
}

/// Puts `tx` into `ready`. The rivals of `tx` are the ready records that
/// provide a tag `tx` provides; `tx` must outbid all of them. `guard` names a
/// record that must stay.
pub open spec fn place(
    ready: Seq<TxView>,
    consumed: Seq<Seq<u8>>,
    tx: TxView,
    guard: Option<TxHash>,
) -> Placement {
    let rv = rivals(ready, tx.provides);
    if rv.len() > 0 && tx.priority <= max_priority(rv) {
        Placement::Outbid { old: max_priority(rv) }
    } else {
        let sw = usurp(ready, consumed, rv);
        if !all_met(sw.kept, consumed, tx) || (guard is Some && !has_hash(
            sw.kept,
            guard.unwrap(),
        )) {
            Placement::Cycle
        } else {
            Placement::Placed { ready: sw.kept.push(tx), usurped: sw.roots, cascaded: sw.cascaded }
        }
    }
}

/// The index of the best record of `pending` whose requirements are met by
/// `ready` and `consumed`, if there is one.
pub open spec fn pick(ready: Seq<TxView>, consumed: Seq<Seq<u8>>, pending: Seq<TxView>) -> Option<
    int,
>
    decreases pending.len(),
{
    if pending.len() == 0 {
        None
    } else {
        let prev = pick(ready, consumed, pending.drop_last());
        let i = pending.len() - 1;
        if all_met(ready, consumed, pending[i]) && (prev is None || better(
            pending[i],
            pending[prev.unwrap()],
        )) {
            Some(i)
        } else {
            prev
        }
    }
}

/// The hashes of `hashes` that no record of `gone` has.
pub open spec fn without(hashes: Seq<TxHash>, gone: Seq<TxView>) -> Seq<TxHash> {
    hashes.filter(absent_from(gone))
}

/// The pool after a run of promotions, with what the run did.
pub struct Promotion {
    pub ready: Seq<TxView>,
    pub future: Seq<TxView>,
    /// Hashes of future records that became ready and stayed ready.
    pub promoted: Seq<TxHash>,
    /// Hashes of records that lost a requirement or could not be placed.
    pub failed: Seq<TxHash>,
    /// Records that were usurped.
    pub removed: Seq<TxView>,
}

/// Promotes future records until none has all its requirements met: each
/// time the best such record leaves the future partition and is placed.
pub open spec fn promote_all(
    ready: Seq<TxView>,
    consumed: Seq<Seq<u8>>,
    future: Seq<TxView>,
    guard: Option<TxHash>,
    promoted: Seq<TxHash>,
    failed: Seq<TxHash>,
    removed: Seq<TxView>,
) -> Promotion
    decreases future.len(),
{
    let choice = pick(ready, consumed, future);
    if choice is Some && 0 <= choice.unwrap() < future.len() {
        let tx = future[choice.unwrap()];
        let rest = future.remove(choice.unwrap());
        match place(ready, consumed, tx, guard) {
            Placement::Placed { ready: next, usurped, cascaded } => promote_all(
                next,
                consumed,
                rest,
                guard,
                without(without(promoted, usurped), cascaded).push(tx.hash),
                failed + hashes_of(cascaded),
                removed + usurped,
            ),
            _ => promote_all(ready, consumed, rest, guard, promoted, failed.push(tx.hash), removed),
        }
    } else {
        Promotion { ready, future, promoted, failed, removed }
    }
}

/// Mathematical value of the result of an import.
pub enum ImportedView {
    /// The record is ready.
    Ready { hash: TxHash, promoted: Seq<TxHash>, failed: Seq<TxHash>, removed: Seq<TxView> },
    /// The record waits in the future partition.
    Future { hash: TxHash },
}

/// Makes `tx`, whose requirements are met, ready, and promotes what it unlocks.
pub open spec fn import_ready(
    ready: Seq<TxView>,
    consumed: Seq<Seq<u8>>,
    future: Seq<TxView>,
    tx: TxView,
) -> Result<Promotion, Error> {
    match place(ready, consumed, tx, None) {
        Placement::Outbid { old } => Err(Error::TooLowPriority { old, new: tx.priority }),
        Placement::Cycle => Err(Error::CycleDetected),
        Placement::Placed { ready: next, usurped, cascaded } => Ok(
            promote_all(
                next,
                consumed,
                future,
                Some(tx.hash),
                Seq::empty(),
                hashes_of(cascaded),
                usurped,
            ),
        ),
    }
}

/// The pool after `tx` is imported, and the result of the import.
pub open spec fn import_spec(s: PoolState, tx: TxView) -> (PoolState, Result<ImportedView, Error>) {
    if has_hash(s.ready, tx.hash) || has_hash(s.future, tx.hash) {
        (s, Err(Error::AlreadyImported(tx.hash)))
    } else if !all_met(s.ready, s.consumed, tx) {
        if s.reject_future {
            (s, Err(Error::RejectedFutureTransaction))
        } else {
            (PoolState { future: s.future.push(tx), ..s }, Ok(ImportedView::Future { hash: tx.hash }))
        }
    } else {
        match import_ready(s.ready, s.consumed, s.future, tx) {
            Err(e) => (s, Err(e)),
            Ok(p) => (
                PoolState { ready: p.ready, future: p.future, ..s },
                Ok(
                    ImportedView::Ready {
                        hash: tx.hash,
                        promoted: p.promoted,
                        failed: p.failed,
                        removed: p.removed,
                    },
                ),
            ),
        }
    }
}

/// `consumed` with the tags of `tags` that it lacks appended, in order.
pub open spec fn absorb(consumed: Seq<Seq<u8>>, tags: Seq<Seq<u8>>) -> Seq<Seq<u8>>
    decreases tags.len(),
{
    if tags.len() == 0 {
        consumed
    } else {
        let before = absorb(consumed, tags.drop_last());
        if before.contains(tags.last()) {
            before
        } else {
            before.push(tags.last())
        }
    }
}

/// All tags that the records of `txs` provide, in order.
pub open spec fn all_provides(txs: Seq<TxView>) -> Seq<Seq<u8>>
    decreases txs.len(),
{
    if txs.len() == 0 {
        Seq::empty()
    } else {
        all_provides(txs.drop_last()) + txs.last().provides
    }
}

/// The pool after a run of imports from the future partition.
pub struct Revival {
    pub ready: Seq<TxView>,
    pub future: Seq<TxView>,
    /// One result for each future record that was made ready.
    pub promoted: Seq<ImportedView>,
    /// Hashes of future records that could not be made ready.
    pub failed: Seq<TxHash>,
}

/// Imports future records whose requirements are met until none is left: each
/// time the best such record leaves the future partition and is made ready,
/// together with what it unlocks.
pub open spec fn revive(
    ready: Seq<TxView>,
    consumed: Seq<Seq<u8>>,
    future: Seq<TxView>,
    promoted: Seq<ImportedView>,
    failed: Seq<TxHash>,
) -> Revival
    decreases future.len(),
{
    let choice = pick(ready, consumed, future);
    if choice is Some && 0 <= choice.unwrap() < future.len() {
        let tx = future[choice.unwrap()];
        let rest = future.remove(choice.unwrap());
        match import_ready(ready, consumed, rest, tx) {
            Ok(p) => if p.future.len() <= rest.len() {
                revive(
                    p.ready,
                    consumed,
                    p.future,
                    promoted.push(
                        ImportedView::Ready {
                            hash: tx.hash,
                            promoted: p.promoted,
                            failed: p.failed,
                            removed: p.removed,
                        },
                    ),
                    failed,
                )
            } else {
                Revival { ready, future, promoted, failed }
            },
            Err(_) => revive(ready, consumed, rest, promoted, failed.push(tx.hash)),
        }
    } else {
        Revival { ready, future, promoted, failed }
    }
}

/// Mathematical value of the result of pruning.
pub struct PruneView {
    /// One result for each future record that became ready.
    pub promoted: Seq<ImportedView>,
    /// Hashes of records that were dropped.
    pub failed: Seq<TxHash>,
    /// Ready records that provided a pruned tag.
    pub pruned: Seq<TxView>,
}

/// The tags that the chain has consumed once `tags` are pruned from `s`: the
/// tags themselves and everything that the pruned records provide.
pub open spec fn consumed_after(s: PoolState, tags: Seq<Seq<u8>>) -> Seq<Seq<u8>> {
    absorb(absorb(s.consumed, tags), all_provides(rivals(s.ready, tags)))
}

/// The pool after `tags` are pruned, and what the pruning did.
pub open spec fn prune_spec(s: PoolState, tags: Seq<Seq<u8>>) -> (PoolState, PruneView) {
    let consumed = consumed_after(s, tags);
    let sw = sweep(s.ready, consumed, hashes_of(rivals(s.ready, tags)));
    let rv = revive(
        sw.kept,
        consumed,
        bystanders(s.future, tags),
        Seq::empty(),
        hashes_of(rivals(s.future, tags)) + hashes_of(sw.cascaded),
    );
    (
        PoolState { ready: rv.ready, future: rv.future, consumed, ..s },
        PruneView { promoted: rv.promoted, failed: rv.failed, pruned: sw.roots },
    )
}

/// The pool after the records named by `hashes` and their dependents are
/// removed, and the removed records: named ready records, then their
/// dependents, then named future records.
pub open spec fn remove_subtree_spec(s: PoolState, hashes: Seq<TxHash>) -> (PoolState, Seq<TxView>) {
    let sw = sweep(s.ready, s.consumed, hashes);
    (
        PoolState { ready: sw.kept, future: unnamed(s.future, hashes), ..s },
        sw.roots + sw.cascaded + named(s.future, hashes),
    )
}

/// The index of the record of `txs` that is evicted first.
pub open spec fn worst(txs: Seq<TxView>) -> int
    decreases txs.len(),
{
    if txs.len() <= 1 {
        0
    } else {
        let prev = worst(txs.drop_last());
        let i = txs.len() - 1;
        if worse(txs[i], txs[prev]) {
            i
        } else {
            prev
        }
    }
}

/// A cap on a partition.
pub struct LimitView {
    pub count: usize,
    pub total_bytes: usize,
}

/// Whether a partition with `count` records of `bytes` bytes in all is over `limit`.
pub open spec fn exceeded(limit: LimitView, count: int, bytes: int) -> bool {
    limit.count < count || limit.total_bytes < bytes
}

/// Evicts the worst ready record, with its dependents, until the ready
/// partition is within `limit`. Returns what stays and `removed` with the
/// evicted records appended.
pub open spec fn trim_ready(
    ready: Seq<TxView>,
    consumed: Seq<Seq<u8>>,
    limit: LimitView,
    removed: Seq<TxView>,
) -> (Seq<TxView>, Seq<TxView>)
    decreases ready.len(),
{
    if ready.len() > 0 && exceeded(limit, ready.len() as int, sum_bytes(ready)) {
        let sw = sweep(ready, consumed, seq![ready[worst(ready)].hash]);
        if sw.kept.len() < ready.len() {
            trim_ready(sw.kept, consumed, limit, removed + sw.roots + sw.cascaded)
        } else {
            (ready, removed)
        }
    } else {
        (ready, removed)
    }
}

/// Evicts the worst future record until the future partition is within
/// `limit`. Returns what stays and `removed` with the evicted records appended.
pub open spec fn trim_future(future: Seq<TxView>, limit: LimitView, removed: Seq<TxView>) -> (
    Seq<TxView>,
    Seq<TxView>,
)
    decreases future.len(),
{
    let w = worst(future);
    if 0 <= w < future.len() && exceeded(limit, future.len() as int, sum_bytes(future)) {
        trim_future(future.remove(w), limit, removed.push(future[w]))
    } else {
        (future, removed)
    }
}

/// The pool after both limits are enforced, and the evicted records.
pub open spec fn enforce_limits_spec(s: PoolState, ready: LimitView, future: LimitView) -> (
    PoolState,
    Seq<TxView>,
) {
    let r = trim_ready(s.ready, s.consumed, ready, Seq::empty());
    let f = trim_future(s.future, future, r.1);
    (PoolState { ready: r.0, future: f.0, ..s }, f.1)
}

/// Takes the best record of `pending` whose requirements are met by `done`
/// and the consumed tags, until none is left.
pub open spec fn emit(pending: Seq<TxView>, done: Seq<TxView>, consumed: Seq<Seq<u8>>) -> Seq<
    TxView,
>
    decreases pending.len(),
{
    let choice = pick(done, consumed, pending);
    if choice is Some && 0 <= choice.unwrap() < pending.len() {
        emit(pending.remove(choice.unwrap()), done.push(pending[choice.unwrap()]), consumed)
    } else {
        done
    }
}

/// The order in which the ready records are handed out: a record comes after
/// the records that provide what it requires; among the records that can come
/// next, the best comes first.
pub open spec fn ready_order(s: PoolState) -> Seq<TxView> {
    emit(s.ready, Seq::empty(), s.consumed)
}

/// The first record of `txs` with the hash `hash`, if there is one.
pub open spec fn lookup(txs: Seq<TxView>, hash: TxHash) -> Option<TxView>
    decreases txs.len(),
{
    if txs.len() == 0 {
        None
    } else {
        match lookup(txs.drop_last(), hash) {
            Some(t) => Some(t),
            None => if txs.last().hash == hash {
                Some(txs.last())
            } else {
                None
            },
        }
    }
}

/// The record of the pool with the hash `hash`, if there is one.
pub open spec fn lookup_pool(s: PoolState, hash: TxHash) -> Option<TxView> {
    match lookup(s.ready, hash) {
        Some(t) => Some(t),
        None => lookup(s.future, hash),
    }
}

/// Counts and byte sums of the two partitions.
pub struct StatusView {
    pub ready: int,
    pub ready_bytes: int,
    pub future: int,
    pub future_bytes: int,
}

/// The status of `s`, by a full scan.
pub open spec fn status_spec(s: PoolState) -> StatusView {
    StatusView {
        ready: s.ready.len() as int,
        ready_bytes: sum_bytes(s.ready),
        future: s.future.len() as int,
        future_bytes: sum_bytes(s.future),
    }
}

/// Two records can be ready together: they differ in hash and share no tag
/// that both provide.
pub open spec fn compatible(a: TxView, b: TxView) -> bool {
    a.hash != b.hash && !provides_any(a, b.provides)
}

/// Every two records of `txs` can be ready together.
pub open spec fn exclusive(txs: Seq<TxView>) -> bool {
    forall|i: int, j: int| 0 <= i < j < txs.len() ==> compatible(#[trigger] txs[i], #[trigger] txs[j])
}

/// No hash occurs twice in `txs`.
pub open spec fn distinct(txs: Seq<TxView>) -> bool {
    forall|i: int, j: int| 0 <= i < j < txs.len() ==> (#[trigger] txs[i]).hash != (#[trigger] txs[j]).hash
}

/// No hash occurs in both `a` and `b`.
pub open spec fn disjoint(a: Seq<TxView>, b: Seq<TxView>) -> bool {
    forall|i: int, j: int| 0 <= i < a.len() && 0 <= j < b.len() ==> (#[trigger] a[i]).hash != (#[trigger] b[j]).hash
}

/// Every requirement of every record of `txs` is met by the records before it
/// or by the consumed tags.
pub open spec fn ordered(txs: Seq<TxView>, consumed: Seq<Seq<u8>>) -> bool {
    forall|k: int| 0 <= k < txs.len() ==> all_met(txs.take(k), consumed, #[trigger] txs[k])
}

/// No record of `future` has all its requirements met.
pub open spec fn waiting(ready: Seq<TxView>, consumed: Seq<Seq<u8>>, future: Seq<TxView>) -> bool {
    forall|k: int| 0 <= k < future.len() ==> !all_met(ready, consumed, #[trigger] future[k])
}

/// The invariant of the pool: a hash occurs once over both partitions, a tag
/// has at most one ready provider, the ready partition is in dependency
/// order, and no future record could be ready.
pub open spec fn pool_wf(s: PoolState) -> bool {
    &&& exclusive(s.ready)
    &&& ordered(s.ready, s.consumed)
    &&& distinct(s.future)
    &&& disjoint(s.ready, s.future)
    &&& waiting(s.ready, s.consumed, s.future)
}

} // verus!
