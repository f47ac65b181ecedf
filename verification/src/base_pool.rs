//! The base pool: the ready and future partitions of the dependency graph.

use vstd::prelude::*;
use crate::error::Error;
use crate::invariants::{
    lemma_enforce_limits_wf, lemma_import_wf, lemma_prune_wf, lemma_remove_subtree_wf,
};
use crate::facts::{
    lemma_absorb_add, lemma_filter_empty, lemma_filter_step, lemma_hashes_push, lemma_lookup_first,
    lemma_lookup_some, lemma_push_drop_last, lemma_sum_add, lemma_sum_nonneg, lemma_sum_prefix,
    lemma_sum_push, lemma_sum_remove, lemma_sweep_hits, lemma_sweep_sizes, lemma_take_all,
    lemma_take_step, lemma_tx_views_add, lemma_worst,
};
use crate::model::{
    absent_from, absorb, all_met, all_provides, better, bystanders, emit, enforce_limits_spec,
    exceeded, has_hash, hashes_of, hits, import_ready, import_spec, is_named, is_unnamed, lookup,
    lookup_pool, max_priority, misses, named, pick, place, pool_wf, promote_all, provided_by,
    provides_any, prune_spec, ready_order, remove_subtree_spec, revive, rivals, status_spec,
    sum_bytes, sweep, total_bytes, trim_future, trim_ready, unnamed, usurp, without, worse, worst,
    ImportedView, LimitView, Placement, PoolState, Promotion, PruneView, Revival,
};
use crate::types::{
    copy_bytes, copy_tags, duplicate_all, hash_in, lemma_tag_views_push, lemma_tx_views_push,
    lemma_tx_views_remove, tag_in, tag_views, tx_views, Priority, Tag, Transaction, TxHash, TxView,
};

verus! {

/// The result of a successful import.
#[derive(Debug, Clone, PartialEq, Eq)]
pub enum Imported {
    /// The transaction is ready.
    Ready {
        /// Hash of the imported transaction.
        hash: TxHash,
        /// Future transactions that became ready with it.
        promoted: Vec<TxHash>,
        /// Transactions that lost a requirement or could not be made ready.
        failed: Vec<TxHash>,
        /// Transactions that were usurped.
        removed: Vec<Transaction>,
    },
    /// The transaction waits in the future partition.
    Future {
        /// Hash of the imported transaction.
        hash: TxHash,
    },
}

impl View for Imported {
    type V = ImportedView;

    open spec fn view(&self) -> ImportedView {
        match *self {
            Imported::Ready { hash, promoted, failed, removed } => ImportedView::Ready {
                hash,
                promoted: promoted@,
                failed: failed@,
                removed: tx_views(removed@),
            },
            Imported::Future { hash } => ImportedView::Future { hash },
        }
    }
}

/// The hash that an import result speaks of.
pub open spec fn imported_hash(imported: ImportedView) -> TxHash {
    match imported {
        ImportedView::Ready { hash, .. } => hash,
        ImportedView::Future { hash } => hash,
    }
}

impl Imported {
    /// Hash of the imported transaction.
    pub fn hash(&self) -> (r: TxHash)
        ensures
            r == imported_hash(self@),
    {
        match self {
            Imported::Ready { hash, .. } => *hash,
            Imported::Future { hash } => *hash,
        }
    }
}

/// The values of a list of import results.
pub open spec fn imported_views(list: Seq<Imported>) -> Seq<ImportedView> {
    list.map_values(|i: Imported| i@)
}

/// What pruning did.
#[derive(Debug, Clone, PartialEq, Eq)]
pub struct PruneStatus {
    /// One result for each future transaction that became ready.
    pub promoted: Vec<Imported>,
    /// Transactions that were dropped.
    pub failed: Vec<TxHash>,
    /// Ready transactions that provided a pruned tag.
    pub pruned: Vec<Transaction>,
}

impl View for PruneStatus {
    type V = PruneView;

    open spec fn view(&self) -> PruneView {
        PruneView {
            promoted: imported_views(self.promoted@),
            failed: self.failed@,
            pruned: tx_views(self.pruned@),
        }
    }
}

/// A cap on one partition of the pool.
#[derive(Debug, Clone, Copy, PartialEq, Eq)]
pub struct Limit {
    /// Most records the partition may hold.
    pub count: usize,
    /// Most bytes the records of the partition may have in all.
    pub total_bytes: usize,
}

impl View for Limit {
    type V = LimitView;

    open spec fn view(&self) -> LimitView {
        LimitView { count: self.count, total_bytes: self.total_bytes }
    }
}

impl Limit {
    /// Whether a partition with `count` records of `bytes` bytes in all is over the cap.
    pub fn is_exceeded(&self, count: usize, bytes: usize) -> (r: bool)
        ensures
            r == exceeded(self@, count as int, bytes as int),
    {
        self.count < count || self.total_bytes < bytes
    }
}

/// Counts and byte sums of the two partitions.
#[derive(Debug, Clone, Copy, PartialEq, Eq, Structural)]
pub struct PoolStatus {
    /// Number of ready transactions.
    pub ready: usize,
    /// Sum of the encoded lengths of the ready transactions.
    pub ready_bytes: usize,
    /// Number of future transactions.
    pub future: usize,
    /// Sum of the encoded lengths of the future transactions.
    pub future_bytes: usize,
}

impl PoolStatus {
    /// Whether the pool holds no transaction.
    pub fn is_empty(&self) -> (r: bool)
        ensures
            r == (self.ready == 0 && self.future == 0),
    {
        self.ready == 0 && self.future == 0
    }
}

/// Whether `tx` provides one of `tags`.
pub(crate) fn provides_one_of(tx: &Transaction, tags: &Vec<Tag>) -> (r: bool)
    ensures
        r == provides_any(tx@, tag_views(tags@)),
{
    let mut k: usize = 0;
    while k < tx.provides.len()
        invariant
            k <= tx.provides.len(),
            forall|j: int| 0 <= j < k ==> !tag_views(tags@).contains(#[trigger] tx@.provides[j]),
        decreases tx.provides.len() - k,
    {
        if tag_in(tags, &tx.provides[k]) {
            assert(tx@.provides.contains(tx@.provides[k as int]));
            return true;
        }
        k += 1;
    }
    false
}

/// Whether some record of `txs` provides `tag`.
pub(crate) fn is_provided(txs: &Vec<Transaction>, tag: &Tag) -> (r: bool)
    ensures
        r == provided_by(tx_views(txs@), tag@),
{
    let mut i: usize = 0;
    while i < txs.len()
        invariant
            i <= txs.len(),
            forall|j: int| 0 <= j < i ==> !(#[trigger] tx_views(txs@)[j]).provides.contains(tag@),
        decreases txs.len() - i,
    {
        if tag_in(&txs[i].provides, tag) {
            assert(tx_views(txs@)[i as int].provides.contains(tag@));
            return true;
        }
        i += 1;
    }
    false
}

/// Whether every requirement of `tx` is met by `ready` and `consumed`.
pub(crate) fn requirements_met(ready: &Vec<Transaction>, consumed: &Vec<Tag>, tx: &Transaction) -> (r:
    bool)
    ensures
        r == all_met(tx_views(ready@), tag_views(consumed@), tx@),
{
    let mut k: usize = 0;
    while k < tx.requires.len()
        invariant
            k <= tx.requires.len(),
            forall|j: int|
                0 <= j < k ==> crate::model::tag_met(
                    tx_views(ready@),
                    tag_views(consumed@),
                    #[trigger] tx@.requires[j],
                ),
        decreases tx.requires.len() - k,
    {
        if !tag_in(consumed, &tx.requires[k]) && !is_provided(ready, &tx.requires[k]) {
            assert(!crate::model::tag_met(
                tx_views(ready@),
                tag_views(consumed@),
                tx@.requires[k as int],
            ));
            return false;
        }
        k += 1;
    }
    true
}

/// The position of the record with the hash `hash`, if there is one.
pub(crate) fn position_of(txs: &Vec<Transaction>, hash: TxHash) -> (r: Option<usize>)
    ensures
        r is Some == has_hash(tx_views(txs@), hash),
        r is Some ==> r.unwrap() < txs.len() && txs@[r.unwrap() as int].hash == hash,
        r is Some ==> forall|j: int| 0 <= j < r.unwrap() ==> (#[trigger] txs@[j]).hash != hash,
{
    let mut i: usize = 0;
    while i < txs.len()
        invariant
            i <= txs.len(),
            forall|j: int| 0 <= j < i ==> (#[trigger] tx_views(txs@)[j]).hash != hash,
        decreases txs.len() - i,
    {
        if txs[i].hash == hash {
            assert(tx_views(txs@)[i as int].hash == hash);
            assert forall|j: int| 0 <= j < i implies (#[trigger] txs@[j]).hash != hash by {
                assert(tx_views(txs@)[j].hash != hash);
            }
            return Some(i);
        }
        i += 1;
    }
    None
}

/// The hashes of `txs`, in order.
pub(crate) fn hashes(txs: &Vec<Transaction>) -> (r: Vec<TxHash>)
    ensures
        r@ == hashes_of(tx_views(txs@)),
{
    let mut out: Vec<TxHash> = Vec::new();
    let mut i: usize = 0;
    while i < txs.len()
        invariant
            i <= txs.len(),
            out@ == hashes_of(tx_views(txs@).take(i as int)),
        decreases txs.len() - i,
    {
        proof {
            lemma_take_step(tx_views(txs@), i as int);
            lemma_hashes_push(tx_views(txs@).take(i as int), tx_views(txs@)[i as int]);
        }
        out.push(txs[i].hash);
        i += 1;
    }
    proof {
        lemma_take_all(tx_views(txs@));
    }
    out
}

/// The hashes of the records of `ready` that provide one of `tags`, and the
/// highest priority among them.
pub(crate) fn find_rivals(ready: &Vec<Transaction>, tags: &Vec<Tag>) -> (r: (Vec<TxHash>, Priority))
    ensures
        r.0@ == hashes_of(rivals(tx_views(ready@), tag_views(tags@))),
        r.1 == max_priority(rivals(tx_views(ready@), tag_views(tags@))),
{
    let ghost views = tx_views(ready@);
    let ghost test = hits(tag_views(tags@));
    let mut found: Vec<TxHash> = Vec::new();
    let mut top: Priority = 0;
    let mut i: usize = 0;
    proof {
        lemma_filter_empty(test);
        assert(views.take(0) =~= Seq::<crate::types::TxView>::empty());
    }
    while i < ready.len()
        invariant
            i <= ready.len(),
            views == tx_views(ready@),
            test == hits(tag_views(tags@)),
            found@ == hashes_of(views.take(i as int).filter(test)),
            top == max_priority(views.take(i as int).filter(test)),
        decreases ready.len() - i,
    {
        proof {
            lemma_filter_step(views, i as int, test);
            lemma_hashes_push(views.take(i as int).filter(test), views[i as int]);
            lemma_push_drop_last(views.take(i as int).filter(test), views[i as int]);
        }
        if provides_one_of(&ready[i], tags) {
            found.push(ready[i].hash);
            if ready[i].priority > top {
                top = ready[i].priority;
            }
        }
        i += 1;
    }
    proof {
        lemma_take_all(views);
    }
    (found, top)
}

/// Whether `a` comes before `b` where both can be taken.
pub(crate) fn is_better(a: &Transaction, b: &Transaction) -> (r: bool)
    ensures
        r == better(a@, b@),
{
    a.priority > b.priority || (a.priority == b.priority && (a.source.timestamp
        < b.source.timestamp || (a.source.timestamp == b.source.timestamp && a.hash < b.hash)))
}

/// Whether `a` is evicted before `b`.
pub(crate) fn is_worse(a: &Transaction, b: &Transaction) -> (r: bool)
    ensures
        r == worse(a@, b@),
{
    a.priority < b.priority || (a.priority == b.priority && (a.source.timestamp
        < b.source.timestamp || (a.source.timestamp == b.source.timestamp && a.hash < b.hash)))
}

/// The choice among `pending` as a position.
pub open spec fn as_choice(r: Option<usize>) -> Option<int> {
    match r {
        Some(i) => Some(i as int),
        None => None,
    }
}

/// The position of the best record of `pending` whose requirements are met
/// by `ready` and `consumed`.
pub(crate) fn choose_next(ready: &Vec<Transaction>, consumed: &Vec<Tag>, pending: &Vec<Transaction>) -> (r:
    Option<usize>)
    ensures
        as_choice(r) == pick(tx_views(ready@), tag_views(consumed@), tx_views(pending@)),
        r is Some ==> r.unwrap() < pending.len(),
{
    let ghost rv = tx_views(ready@);
    let ghost cv = tag_views(consumed@);
    let ghost pv = tx_views(pending@);
    let mut best: Option<usize> = None;
    let mut i: usize = 0;
    proof {
        assert(pv.take(0) =~= Seq::<crate::types::TxView>::empty());
    }
    while i < pending.len()
        invariant
            i <= pending.len(),
            rv == tx_views(ready@),
            cv == tag_views(consumed@),
            pv == tx_views(pending@),
            as_choice(best) == pick(rv, cv, pv.take(i as int)),
            best is Some ==> best.unwrap() < i,
        decreases pending.len() - i,
    {
        proof {
            lemma_take_step(pv, i as int);
            if best is Some {
                assert(pv.take(i as int + 1)[best.unwrap() as int] == pv[best.unwrap() as int]);
            }
        }
        if requirements_met(ready, consumed, &pending[i]) {
            let take: bool = match best {
                None => true,
                Some(b) => is_better(&pending[i], &pending[b]),
            };
            if take {
                best = Some(i);
            }
        }
        i += 1;
    }
    proof {
        lemma_take_all(pv);
    }
    best
}

/// The position of the record of `txs` that is evicted first.
pub(crate) fn find_worst(txs: &Vec<Transaction>) -> (r: usize)
    requires
        txs.len() > 0,
    ensures
        r == worst(tx_views(txs@)),
        r < txs.len(),
{
    let ghost views = tx_views(txs@);
    let mut at: usize = 0;
    let mut i: usize = 1;
    proof {
        assert(worst(views.take(1)) == 0);
    }
    while i < txs.len()
        invariant
            1 <= i <= txs.len(),
            views == tx_views(txs@),
            at == worst(views.take(i as int)),
            at < i,
        decreases txs.len() - i,
    {
        proof {
            lemma_take_step(views, i as int);
            assert(views.take(i as int + 1)[at as int] == views[at as int]);
        }
        if is_worse(&txs[i], &txs[at]) {
            at = i;
        }
        i += 1;
    }
    proof {
        lemma_take_all(views);
    }
    at
}

/// The parts into which a sweep sorts the ready records.
struct Swept {
    pub kept: Vec<Transaction>,
    pub kept_bytes: usize,
    pub roots: Vec<Transaction>,
    pub cascaded: Vec<Transaction>,
}

/// Sorts the ready records into those that stay, those named by `doomed` and
/// those that lose a requirement.
fn sweep_out(ready: Vec<Transaction>, consumed: &Vec<Tag>, doomed: &[TxHash]) -> (r: Swept)
    requires
        sum_bytes(tx_views(ready@)) <= usize::MAX,
    ensures
        tx_views(r.kept@) == sweep(tx_views(ready@), tag_views(consumed@), doomed@).kept,
        tx_views(r.roots@) == sweep(tx_views(ready@), tag_views(consumed@), doomed@).roots,
        tx_views(r.cascaded@) == sweep(tx_views(ready@), tag_views(consumed@), doomed@).cascaded,
        r.kept_bytes == sum_bytes(tx_views(r.kept@)),
        r.kept_bytes <= sum_bytes(tx_views(ready@)),
{
    let ghost orig = ready@;
    let ghost views = tx_views(ready@);
    let ghost cv = tag_views(consumed@);
    let mut kept: Vec<Transaction> = Vec::new();
    let mut kept_bytes: usize = 0;
    let mut roots: Vec<Transaction> = Vec::new();
    let mut cascaded: Vec<Transaction> = Vec::new();
    proof {
        assert(views.take(0) =~= Seq::<TxView>::empty());
        assert(tx_views(kept@) =~= Seq::<TxView>::empty());
        assert(tx_views(roots@) =~= Seq::<TxView>::empty());
        assert(tx_views(cascaded@) =~= Seq::<TxView>::empty());
    }
    for tx in it: ready
        invariant
            it.seq() == orig,
            views == tx_views(orig),
            cv == tag_views(consumed@),
            sum_bytes(views) <= usize::MAX,
            tx_views(kept@) == sweep(views.take(it.index() as int), cv, doomed@).kept,
            tx_views(roots@) == sweep(views.take(it.index() as int), cv, doomed@).roots,
            tx_views(cascaded@) == sweep(views.take(it.index() as int), cv, doomed@).cascaded,
            kept_bytes == sum_bytes(tx_views(kept@)),
    {
        let ghost i = it.index() as int;
        proof {
            lemma_take_step(views, i);
            assert(views[i] == tx@);
            lemma_tx_views_push(kept@, tx);
            lemma_tx_views_push(roots@, tx);
            lemma_tx_views_push(cascaded@, tx);
            lemma_sum_push(tx_views(kept@), tx@);
            lemma_sweep_sizes(views.take(i + 1), cv, doomed@);
            lemma_sum_prefix(views, i + 1);
        }
        if hash_in(doomed, tx.hash) {
            roots.push(tx);
        } else if requirements_met(&kept, consumed, &tx) {
            kept_bytes = kept_bytes + tx.bytes;
            kept.push(tx);
        } else {
            cascaded.push(tx);
        }
    }
    proof {
        lemma_take_all(views);
        lemma_sweep_sizes(views, cv, doomed@);
    }
    Swept { kept, kept_bytes, roots, cascaded }
}

/// How an attempt to make a record ready ended.
enum Verdict {
    Placed { usurped: Vec<Transaction>, cascaded: Vec<Transaction> },
    Outbid { old: Priority },
    Cycle,
}

/// The ready records after an attempt to make a record ready.
struct Placing {
    pub ready: Vec<Transaction>,
    pub ready_bytes: usize,
    pub verdict: Verdict,
}

/// Puts `tx` among the ready records if it outbids its rivals and keeps its
/// requirements; else leaves the ready records as they are. Only where there
/// are rivals to usurp is the partition swept, on a copy that is thrown away
/// if the placement fails.
fn place_tx(
    ready: Vec<Transaction>,
    ready_bytes: usize,
    consumed: &Vec<Tag>,
    tx: Transaction,
    guard: Option<TxHash>,
) -> (r: Placing)
    requires
        ready_bytes == sum_bytes(tx_views(ready@)),
        ready_bytes + tx.bytes <= usize::MAX,
    ensures
        r.ready_bytes == sum_bytes(tx_views(r.ready@)),
        r.ready_bytes <= ready_bytes + tx.bytes,
        match place(tx_views(ready@), tag_views(consumed@), tx@, guard) {
            Placement::Placed { ready: next, usurped, cascaded } => {
                &&& r.verdict is Placed
                &&& tx_views(r.ready@) == next
                &&& tx_views(r.verdict->usurped@) == usurped
                &&& tx_views(r.verdict->cascaded@) == cascaded
            },
            Placement::Outbid { old } => {
                &&& r.verdict is Outbid
                &&& r.verdict->old == old
                &&& tx_views(r.ready@) == tx_views(ready@)
            },
            Placement::Cycle => {
                &&& r.verdict is Cycle
                &&& tx_views(r.ready@) == tx_views(ready@)
            },
        },
{
    let found = find_rivals(&ready, &tx.provides);
    let rival_hashes = found.0;
    let top = found.1;
    if rival_hashes.len() > 0 && tx.priority <= top {
        return Placing { ready, ready_bytes, verdict: Verdict::Outbid { old: top } };
    }
    if rival_hashes.len() == 0 {
        let mut stays: bool = requirements_met(&ready, consumed, &tx);
        if stays {
            match guard {
                Some(g) => {
                    stays = position_of(&ready, g).is_some();
                },
                None => {},
            }
        }
        if !stays {
            return Placing { ready, ready_bytes, verdict: Verdict::Cycle };
        }
        let mut ready = ready;
        let usurped: Vec<Transaction> = Vec::new();
        let cascaded: Vec<Transaction> = Vec::new();
        proof {
            lemma_tx_views_push(ready@, tx);
            lemma_sum_push(tx_views(ready@), tx@);
            assert(tx_views(usurped@) =~= Seq::<TxView>::empty());
            assert(tx_views(cascaded@) =~= Seq::<TxView>::empty());
        }
        let bytes: usize = ready_bytes + tx.bytes;
        ready.push(tx);
        return Placing {
            ready,
            ready_bytes: bytes,
            verdict: Verdict::Placed { usurped, cascaded },
        };
    }
    let snapshot = duplicate_all(&ready);
    let ghost views = tx_views(ready@);
    let sw = sweep_out(ready, consumed, rival_hashes.as_slice());
    let mut stays: bool = requirements_met(&sw.kept, consumed, &tx);
    if stays {
        match guard {
            Some(g) => {
                stays = position_of(&sw.kept, g).is_some();
            },
            None => {},
        }
    }
    if !stays {
        return Placing { ready: snapshot, ready_bytes, verdict: Verdict::Cycle };
    }
    let mut kept = sw.kept;
    proof {
        lemma_tx_views_push(kept@, tx);
        lemma_sum_push(tx_views(kept@), tx@);
    }
    let bytes: usize = sw.kept_bytes + tx.bytes;
    kept.push(tx);
    Placing {
        ready: kept,
        ready_bytes: bytes,
        verdict: Verdict::Placed { usurped: sw.roots, cascaded: sw.cascaded },
    }
}

/// The hashes of `list` that no record of `gone` has.
fn drop_gone(list: Vec<TxHash>, gone: &Vec<Transaction>) -> (r: Vec<TxHash>)
    ensures
        r@ == without(list@, tx_views(gone@)),
{
    let ghost test = absent_from(tx_views(gone@));
    let mut out: Vec<TxHash> = Vec::new();
    let mut i: usize = 0;
    proof {
        lemma_filter_empty(test);
        assert(list@.take(0) =~= Seq::<TxHash>::empty());
    }
    while i < list.len()
        invariant
            i <= list.len(),
            test == absent_from(tx_views(gone@)),
            out@ == list@.take(i as int).filter(test),
        decreases list.len() - i,
    {
        proof {
            lemma_filter_step(list@, i as int, test);
        }
        if position_of(gone, list[i]).is_none() {
            out.push(list[i]);
        }
        i += 1;
    }
    proof {
        lemma_take_all(list@);
    }
    out
}

/// The two partitions with their byte sums, and what a run of promotions did.
struct Run {
    pub ready: Vec<Transaction>,
    pub ready_bytes: usize,
    pub future: Vec<Transaction>,
    pub future_bytes: usize,
    pub promoted: Vec<TxHash>,
    pub failed: Vec<TxHash>,
    pub removed: Vec<Transaction>,
}

impl View for Run {
    type V = Promotion;

    closed spec fn view(&self) -> Promotion {
        Promotion {
            ready: tx_views(self.ready@),
            future: tx_views(self.future@),
            promoted: self.promoted@,
            failed: self.failed@,
            removed: tx_views(self.removed@),
        }
    }
}

impl Run {
    /// The byte sums are those of the partitions.
    spec fn tallied(&self) -> bool {
        &&& self.ready_bytes == sum_bytes(tx_views(self.ready@))
        &&& self.future_bytes == sum_bytes(tx_views(self.future@))
    }
}

/// Promotes future records until none has all its requirements met.
fn promote(start: Run, consumed: &Vec<Tag>, guard: Option<TxHash>) -> (r: Run)
    requires
        start.tallied(),
        start.ready_bytes + start.future_bytes <= usize::MAX,
    ensures
        r@ == promote_all(
            start@.ready,
            tag_views(consumed@),
            start@.future,
            guard,
            start@.promoted,
            start@.failed,
            start@.removed,
        ),
        r.tallied(),
        r.ready_bytes + r.future_bytes <= start.ready_bytes + start.future_bytes,
        r.future.len() <= start.future.len(),
{
    let ghost cv = tag_views(consumed@);
    let ghost goal = promote_all(
        start@.ready,
        cv,
        start@.future,
        guard,
        start@.promoted,
        start@.failed,
        start@.removed,
    );
    let ghost cap = start.ready_bytes + start.future_bytes;
    let ghost len0 = start.future.len();
    let mut ready = start.ready;
    let mut ready_bytes = start.ready_bytes;
    let mut future = start.future;
    let mut future_bytes = start.future_bytes;
    let mut promoted = start.promoted;
    let mut failed = start.failed;
    let mut removed = start.removed;
    let mut choice = choose_next(&ready, consumed, &future);
    while choice.is_some()
        invariant
            cv == tag_views(consumed@),
            cap <= usize::MAX,
            ready_bytes == sum_bytes(tx_views(ready@)),
            future_bytes == sum_bytes(tx_views(future@)),
            ready_bytes + future_bytes <= cap,
            future.len() <= len0,
            as_choice(choice) == pick(tx_views(ready@), cv, tx_views(future@)),
            choice is Some ==> choice.unwrap() < future.len(),
            goal == promote_all(
                tx_views(ready@),
                cv,
                tx_views(future@),
                guard,
                promoted@,
                failed@,
                tx_views(removed@),
            ),
        decreases future.len(),
    {
        let i: usize = choice.unwrap();
        let ghost before = future@;
        let ghost ready_before = tx_views(ready@);
        let ghost promoted_before = promoted@;
        let ghost failed_before = failed@;
        let ghost removed_before = tx_views(removed@);
        proof {
            lemma_tx_views_remove(before, i as int);
            lemma_sum_remove(tx_views(before), i as int);
            lemma_sum_nonneg(tx_views(before).remove(i as int));
        }
        let tx = future.remove(i);
        future_bytes = future_bytes - tx.bytes;
        let hash: TxHash = tx.hash;
        let ghost txv = tx@;
        let placing = place_tx(ready, ready_bytes, consumed, tx, guard);
        ready = placing.ready;
        ready_bytes = placing.ready_bytes;
        match placing.verdict {
            Verdict::Placed { usurped, cascaded } => {
                promoted = drop_gone(drop_gone(promoted, &usurped), &cascaded);
                promoted.push(hash);
                let mut lost = hashes(&cascaded);
                failed.append(&mut lost);
                let mut usurped = usurped;
                proof {
                    lemma_tx_views_add(removed@, usurped@);
                }
                removed.append(&mut usurped);
            },
            _ => {
                failed.push(hash);
            },
        }
        assert(goal == promote_all(
            tx_views(ready@),
            cv,
            tx_views(future@),
            guard,
            promoted@,
            failed@,
            tx_views(removed@),
        ));
        choice = choose_next(&ready, consumed, &future);
    }
    Run { ready, ready_bytes, future, future_bytes, promoted, failed, removed }
}

/// The two partitions after an attempt to make a record ready.
struct Made {
    pub run: Run,
    pub error: Option<Error>,
}

/// Makes `tx`, whose requirements are met, ready, and promotes what it unlocks.
fn make_ready(
    ready: Vec<Transaction>,
    ready_bytes: usize,
    future: Vec<Transaction>,
    future_bytes: usize,
    consumed: &Vec<Tag>,
    tx: Transaction,
) -> (r: Made)
    requires
        ready_bytes == sum_bytes(tx_views(ready@)),
        future_bytes == sum_bytes(tx_views(future@)),
        ready_bytes + future_bytes + tx.bytes <= usize::MAX,
    ensures
        r.run.tallied(),
        r.run.ready_bytes + r.run.future_bytes <= ready_bytes + future_bytes + tx.bytes,
        r.run.future.len() <= future.len(),
        match import_ready(tx_views(ready@), tag_views(consumed@), tx_views(future@), tx@) {
            Ok(p) => r.error is None && r.run@ == p,
            Err(e) => {
                &&& r.error == Some(e)
                &&& r.run@.ready == tx_views(ready@)
                &&& r.run@.future == tx_views(future@)
            },
        },
{
    let hash: TxHash = tx.hash;
    let priority: Priority = tx.priority;
    let placing = place_tx(ready, ready_bytes, consumed, tx, None);
    match placing.verdict {
        Verdict::Placed { usurped, cascaded } => {
            let failed = hashes(&cascaded);
            let run = promote(
                Run {
                    ready: placing.ready,
                    ready_bytes: placing.ready_bytes,
                    future,
                    future_bytes,
                    promoted: Vec::new(),
                    failed,
                    removed: usurped,
                },
                consumed,
                Some(hash),
            );
            Made { run, error: None }
        },
        Verdict::Outbid { old } => Made {
            run: Run {
                ready: placing.ready,
                ready_bytes: placing.ready_bytes,
                future,
                future_bytes,
                promoted: Vec::new(),
                failed: Vec::new(),
                removed: Vec::new(),
            },
            error: Some(Error::TooLowPriority { old, new: priority }),
        },
        Verdict::Cycle => Made {
            run: Run {
                ready: placing.ready,
                ready_bytes: placing.ready_bytes,
                future,
                future_bytes,
                promoted: Vec::new(),
                failed: Vec::new(),
                removed: Vec::new(),
            },
            error: Some(Error::CycleDetected),
        },
    }
}

/// The result of an import as a mathematical value.
pub open spec fn import_result_view(r: Result<Imported, Error>) -> Result<ImportedView, Error> {
    match r {
        Ok(i) => Ok(i@),
        Err(e) => Err(e),
    }
}

/// The values of a list of import results with one more result.
pub proof fn lemma_imported_views_push(list: Seq<Imported>, x: Imported)
    ensures
        imported_views(list.push(x)) == imported_views(list).push(x@),
{
    assert(imported_views(list.push(x)) =~= imported_views(list).push(x@));
}

/// The two partitions after a run of imports from the future partition.
struct Revived {
    pub ready: Vec<Transaction>,
    pub ready_bytes: usize,
    pub future: Vec<Transaction>,
    pub future_bytes: usize,
    pub promoted: Vec<Imported>,
    pub failed: Vec<TxHash>,
}

/// Imports future records whose requirements are met until none is left.
fn revive_all(
    ready: Vec<Transaction>,
    ready_bytes: usize,
    future: Vec<Transaction>,
    future_bytes: usize,
    consumed: &Vec<Tag>,
    failed: Vec<TxHash>,
) -> (r: Revived)
    requires
        ready_bytes == sum_bytes(tx_views(ready@)),
        future_bytes == sum_bytes(tx_views(future@)),
        ready_bytes + future_bytes <= usize::MAX,
    ensures
        r.ready_bytes == sum_bytes(tx_views(r.ready@)),
        r.future_bytes == sum_bytes(tx_views(r.future@)),
        r.ready_bytes + r.future_bytes <= ready_bytes + future_bytes,
        (Revival {
            ready: tx_views(r.ready@),
            future: tx_views(r.future@),
            promoted: imported_views(r.promoted@),
            failed: r.failed@,
        }) == revive(
            tx_views(ready@),
            tag_views(consumed@),
            tx_views(future@),
            Seq::empty(),
            failed@,
        ),
{
    let ghost cv = tag_views(consumed@);
    let ghost goal = revive(tx_views(ready@), cv, tx_views(future@), Seq::empty(), failed@);
    let ghost cap = ready_bytes + future_bytes;
    let mut ready = ready;
    let mut ready_bytes = ready_bytes;
    let mut future = future;
    let mut future_bytes = future_bytes;
    let mut promoted: Vec<Imported> = Vec::new();
    let mut failed = failed;
    proof {
        assert(imported_views(promoted@) =~= Seq::<ImportedView>::empty());
    }
    let mut choice = choose_next(&ready, consumed, &future);
    while choice.is_some()
        invariant
            cv == tag_views(consumed@),
            cap <= usize::MAX,
            ready_bytes == sum_bytes(tx_views(ready@)),
            future_bytes == sum_bytes(tx_views(future@)),
            ready_bytes + future_bytes <= cap,
            as_choice(choice) == pick(tx_views(ready@), cv, tx_views(future@)),
            choice is Some ==> choice.unwrap() < future.len(),
            goal == revive(
                tx_views(ready@),
                cv,
                tx_views(future@),
                imported_views(promoted@),
                failed@,
            ),
        decreases future.len(),
    {
        let i: usize = choice.unwrap();
        proof {
            lemma_tx_views_remove(future@, i as int);
            lemma_sum_remove(tx_views(future@), i as int);
            lemma_sum_nonneg(tx_views(future@).remove(i as int));
        }
        let tx = future.remove(i);
        future_bytes = future_bytes - tx.bytes;
        let hash: TxHash = tx.hash;
        let made = make_ready(ready, ready_bytes, future, future_bytes, consumed, tx);
        ready = made.run.ready;
        ready_bytes = made.run.ready_bytes;
        future = made.run.future;
        future_bytes = made.run.future_bytes;
        match made.error {
            None => {
                let imported = Imported::Ready {
                    hash,
                    promoted: made.run.promoted,
                    failed: made.run.failed,
                    removed: made.run.removed,
                };
                proof {
                    lemma_imported_views_push(promoted@, imported);
                }
                promoted.push(imported);
            },
            Some(_) => {
                failed.push(hash);
            },
        }
        choice = choose_next(&ready, consumed, &future);
    }
    Revived { ready, ready_bytes, future, future_bytes, promoted, failed }
}

/// The records of a list sorted by a test, with the byte sum of those that fail it.
struct Split {
    pub hit: Vec<Transaction>,
    pub miss: Vec<Transaction>,
    pub miss_bytes: usize,
}

/// Sorts `txs` into the records that provide one of `tags` and the others.
fn split_by_tags(txs: Vec<Transaction>, tags: &Vec<Tag>) -> (r: Split)
    requires
        sum_bytes(tx_views(txs@)) <= usize::MAX,
    ensures
        tx_views(r.hit@) == rivals(tx_views(txs@), tag_views(tags@)),
        tx_views(r.miss@) == bystanders(tx_views(txs@), tag_views(tags@)),
        r.miss_bytes == sum_bytes(tx_views(r.miss@)),
        r.miss_bytes <= sum_bytes(tx_views(txs@)),
        r.miss_bytes + sum_bytes(tx_views(r.hit@)) == sum_bytes(tx_views(txs@)),
{
    let ghost orig = txs@;
    let ghost views = tx_views(txs@);
    let ghost yes = hits(tag_views(tags@));
    let ghost no = misses(tag_views(tags@));
    let mut hit: Vec<Transaction> = Vec::new();
    let mut miss: Vec<Transaction> = Vec::new();
    let mut miss_bytes: usize = 0;
    let ghost mut spent: int = 0;
    proof {
        lemma_filter_empty(yes);
        lemma_filter_empty(no);
        assert(views.take(0) =~= Seq::<TxView>::empty());
        assert(tx_views(hit@) =~= Seq::<TxView>::empty());
        assert(tx_views(miss@) =~= Seq::<TxView>::empty());
    }
    for tx in it: txs
        invariant
            it.seq() == orig,
            views == tx_views(orig),
            yes == hits(tag_views(tags@)),
            no == misses(tag_views(tags@)),
            sum_bytes(views) <= usize::MAX,
            tx_views(hit@) == views.take(it.index() as int).filter(yes),
            tx_views(miss@) == views.take(it.index() as int).filter(no),
            miss_bytes == sum_bytes(tx_views(miss@)),
            miss_bytes + spent == sum_bytes(views.take(it.index() as int)),
            spent == sum_bytes(tx_views(hit@)),
            spent >= 0,
    {
        let ghost i = it.index() as int;
        proof {
            lemma_take_step(views, i);
            assert(views[i] == tx@);
            lemma_filter_step(views, i, yes);
            lemma_filter_step(views, i, no);
            lemma_tx_views_push(hit@, tx);
            lemma_tx_views_push(miss@, tx);
            lemma_sum_push(tx_views(miss@), tx@);
            lemma_sum_push(tx_views(hit@), tx@);
            lemma_sum_push(views.take(i), tx@);
            lemma_sum_prefix(views, i + 1);
        }
        if provides_one_of(&tx, tags) {
            proof {
                spent = spent + tx.bytes;
            }
            hit.push(tx);
        } else {
            miss_bytes = miss_bytes + tx.bytes;
            miss.push(tx);
        }
    }
    proof {
        lemma_take_all(views);
    }
    Split { hit, miss, miss_bytes }
}

/// Sorts `txs` into the records whose hash is in `hashes` and the others.
fn split_by_hashes(txs: Vec<Transaction>, hashes: &[TxHash]) -> (r: Split)
    requires
        sum_bytes(tx_views(txs@)) <= usize::MAX,
    ensures
        tx_views(r.hit@) == named(tx_views(txs@), hashes@),
        tx_views(r.miss@) == unnamed(tx_views(txs@), hashes@),
        r.miss_bytes == sum_bytes(tx_views(r.miss@)),
        r.miss_bytes <= sum_bytes(tx_views(txs@)),
        r.miss_bytes + sum_bytes(tx_views(r.hit@)) == sum_bytes(tx_views(txs@)),
{
    let ghost orig = txs@;
    let ghost views = tx_views(txs@);
    let ghost yes = is_named(hashes@);
    let ghost no = is_unnamed(hashes@);
    let mut hit: Vec<Transaction> = Vec::new();
    let mut miss: Vec<Transaction> = Vec::new();
    let mut miss_bytes: usize = 0;
    let ghost mut spent: int = 0;
    proof {
        lemma_filter_empty(yes);
        lemma_filter_empty(no);
        assert(views.take(0) =~= Seq::<TxView>::empty());
        assert(tx_views(hit@) =~= Seq::<TxView>::empty());
        assert(tx_views(miss@) =~= Seq::<TxView>::empty());
    }
    for tx in it: txs
        invariant
            it.seq() == orig,
            views == tx_views(orig),
            yes == is_named(hashes@),
            no == is_unnamed(hashes@),
            sum_bytes(views) <= usize::MAX,
            tx_views(hit@) == views.take(it.index() as int).filter(yes),
            tx_views(miss@) == views.take(it.index() as int).filter(no),
            miss_bytes == sum_bytes(tx_views(miss@)),
            miss_bytes + spent == sum_bytes(views.take(it.index() as int)),
            spent == sum_bytes(tx_views(hit@)),
            spent >= 0,
    {
        let ghost i = it.index() as int;
        proof {
            lemma_take_step(views, i);
            assert(views[i] == tx@);
            lemma_filter_step(views, i, yes);
            lemma_filter_step(views, i, no);
            lemma_tx_views_push(hit@, tx);
            lemma_tx_views_push(miss@, tx);
            lemma_sum_push(tx_views(miss@), tx@);
            lemma_sum_push(tx_views(hit@), tx@);
            lemma_sum_push(views.take(i), tx@);
            lemma_sum_prefix(views, i + 1);
        }
        if hash_in(hashes, tx.hash) {
            proof {
                spent = spent + tx.bytes;
            }
            hit.push(tx);
        } else {
            miss_bytes = miss_bytes + tx.bytes;
            miss.push(tx);
        }
    }
    proof {
        lemma_take_all(views);
    }
    Split { hit, miss, miss_bytes }
}

/// Appends to `consumed` the tags of `tags` that it lacks.
fn absorb_tags(consumed: &mut Vec<Tag>, tags: &Vec<Tag>)
    ensures
        tag_views(final(consumed)@) == absorb(tag_views(old(consumed)@), tag_views(tags@)),
{
    let ghost start = tag_views(consumed@);
    let ghost tv = tag_views(tags@);
    let mut i: usize = 0;
    proof {
        assert(tv.take(0) =~= Seq::<Seq<u8>>::empty());
    }
    while i < tags.len()
        invariant
            i <= tags.len(),
            tv == tag_views(tags@),
            tag_views(consumed@) == absorb(start, tv.take(i as int)),
        decreases tags.len() - i,
    {
        proof {
            lemma_take_step(tv, i as int);
        }
        if !tag_in(consumed, &tags[i]) {
            let tag: Tag = copy_bytes(&tags[i]);
            proof {
                lemma_tag_views_push(consumed@, tag);
            }
            consumed.push(tag);
        }
        i += 1;
    }
    proof {
        lemma_take_all(tv);
    }
}

/// Appends to `consumed` what the records of `ready` that provide one of
/// `tags` provide and `consumed` lacks.
fn absorb_provided(consumed: &mut Vec<Tag>, ready: &Vec<Transaction>, tags: &Vec<Tag>)
    ensures
        tag_views(final(consumed)@) == absorb(
            tag_views(old(consumed)@),
            all_provides(rivals(tx_views(ready@), tag_views(tags@))),
        ),
{
    let ghost start = tag_views(consumed@);
    let ghost views = tx_views(ready@);
    let ghost test = hits(tag_views(tags@));
    let mut i: usize = 0;
    proof {
        lemma_filter_empty(test);
        assert(views.take(0) =~= Seq::<TxView>::empty());
    }
    while i < ready.len()
        invariant
            i <= ready.len(),
            views == tx_views(ready@),
            test == hits(tag_views(tags@)),
            tag_views(consumed@) == absorb(start, all_provides(views.take(i as int).filter(test))),
        decreases ready.len() - i,
    {
        proof {
            lemma_filter_step(views, i as int, test);
            lemma_push_drop_last(views.take(i as int).filter(test), views[i as int]);
            lemma_absorb_add(
                start,
                all_provides(views.take(i as int).filter(test)),
                views[i as int].provides,
            );
        }
        if provides_one_of(&ready[i], tags) {
            absorb_tags(consumed, &ready[i].provides);
        }
        i += 1;
    }
    proof {
        lemma_take_all(views);
    }
}

/// The base pool: ready transactions in dependency order, future
/// transactions that wait for a requirement, and the tags that the chain has
/// consumed.
pub struct BasePool {
    reject_future_transactions: bool,
    ready: Vec<Transaction>,
    future: Vec<Transaction>,
    consumed: Vec<Tag>,
    ready_bytes: usize,
    future_bytes: usize,
}

impl View for BasePool {
    type V = PoolState;

    closed spec fn view(&self) -> PoolState {
        PoolState {
            ready: tx_views(self.ready@),
            future: tx_views(self.future@),
            consumed: tag_views(self.consumed@),
            reject_future: self.reject_future_transactions,
        }
    }
}

/// The value of a record that may be absent.
pub open spec fn optional_view(r: Option<Transaction>) -> Option<TxView> {
    match r {
        Some(t) => Some(t@),
        None => None,
    }
}

impl BasePool {
    /// The byte tallies are the byte sums of the partitions, and the sums fit.
    pub closed spec fn tallied(&self) -> bool {
        &&& self.ready_bytes == sum_bytes(tx_views(self.ready@))
        &&& self.future_bytes == sum_bytes(tx_views(self.future@))
        &&& self.ready_bytes + self.future_bytes <= usize::MAX
    }

    /// The pool is well-formed: its tallies are right and its value obeys the
    /// invariant of the model.
    pub open spec fn wf(&self) -> bool {
        self.tallied() && pool_wf(self@)
    }

    /// Whether a record of `bytes` bytes can be added without the byte sums
    /// leaving the machine's range.
    pub open spec fn has_room(&self, bytes: int) -> bool {
        total_bytes(self@) + bytes <= usize::MAX
    }

    /// In a well-formed pool the byte sums fit the machine's range.
    pub proof fn lemma_sums_fit(&self)
        requires
            self.tallied(),
        ensures
            0 <= sum_bytes(self@.ready),
            0 <= sum_bytes(self@.future),
            sum_bytes(self@.ready) + sum_bytes(self@.future) <= usize::MAX,
    {
        lemma_sum_nonneg(self@.ready);
        lemma_sum_nonneg(self@.future);
    }

    /// An empty pool.
    pub fn new(reject_future_transactions: bool) -> (r: Self)
        ensures
            r.wf(),
            r@ == (PoolState {
                ready: Seq::empty(),
                future: Seq::empty(),
                consumed: Seq::empty(),
                reject_future: reject_future_transactions,
            }),
    {
        let r = BasePool {
            reject_future_transactions,
            ready: Vec::new(),
            future: Vec::new(),
            consumed: Vec::new(),
            ready_bytes: 0,
            future_bytes: 0,
        };
        proof {
            assert(tx_views(r.ready@) =~= Seq::<TxView>::empty());
            assert(tx_views(r.future@) =~= Seq::<TxView>::empty());
            assert(tag_views(r.consumed@) =~= Seq::<Seq<u8>>::empty());
        }
        r
    }

    /// Takes the ready records out of the pool, to hand them back afterwards.
    fn take_ready(&mut self) -> (r: Vec<Transaction>)
        ensures
            r@ == old(self).ready@,
            final(self).ready@.len() == 0,
            final(self).future == old(self).future,
            final(self).consumed == old(self).consumed,
            final(self).ready_bytes == old(self).ready_bytes,
            final(self).future_bytes == old(self).future_bytes,
            final(self).reject_future_transactions == old(self).reject_future_transactions,
    {
        let mut tmp: Vec<Transaction> = Vec::new();
        core::mem::swap(&mut self.ready, &mut tmp);
        tmp
    }

    /// Takes the future records out of the pool, to hand them back afterwards.
    fn take_future(&mut self) -> (r: Vec<Transaction>)
        ensures
            r@ == old(self).future@,
            final(self).future@.len() == 0,
            final(self).ready == old(self).ready,
            final(self).consumed == old(self).consumed,
            final(self).ready_bytes == old(self).ready_bytes,
            final(self).future_bytes == old(self).future_bytes,
            final(self).reject_future_transactions == old(self).reject_future_transactions,
    {
        let mut tmp: Vec<Transaction> = Vec::new();
        core::mem::swap(&mut self.future, &mut tmp);
        tmp
    }

    /// Imports a transaction.
    ///
    /// A transaction whose hash is in the pool is refused. One with an unmet
    /// requirement goes to the future partition, or is refused where the pool
    /// holds no such transactions. One whose requirements are met becomes
    /// ready if it outbids every ready transaction that provides one of its
    /// tags and usurping them does not take away what it requires; the future
    /// transactions that it unlocks are promoted. A refused transaction
    /// leaves the pool as it was.
    pub fn import(&mut self, tx: Transaction) -> (r: Result<Imported, Error>)
        requires
            old(self).wf(),
            old(self).has_room(tx.bytes as int),
        ensures
            final(self).wf(),
            final(self)@ == import_spec(old(self)@, tx@).0,
            import_result_view(r) == import_spec(old(self)@, tx@).1,
            total_bytes(final(self)@) <= total_bytes(old(self)@) + tx.bytes,
    {
        proof {
            lemma_import_wf(self@, tx@);
        }
        let hash: TxHash = tx.hash;
        if position_of(&self.ready, hash).is_some() || position_of(&self.future, hash).is_some() {
            return Err(Error::AlreadyImported(hash));
        }
        if !requirements_met(&self.ready, &self.consumed, &tx) {
            if self.reject_future_transactions {
                return Err(Error::RejectedFutureTransaction);
            }
            proof {
                lemma_tx_views_push(self.future@, tx);
                lemma_sum_push(tx_views(self.future@), tx@);
            }
            self.future_bytes = self.future_bytes + tx.bytes;
            self.future.push(tx);
            return Ok(Imported::Future { hash });
        }
        let ready = self.take_ready();
        let future = self.take_future();
        let made = make_ready(ready, self.ready_bytes, future, self.future_bytes, &self.consumed, tx);
        self.ready = made.run.ready;
        self.ready_bytes = made.run.ready_bytes;
        self.future = made.run.future;
        self.future_bytes = made.run.future_bytes;
        match made.error {
            Some(e) => Err(e),
            None => Ok(
                Imported::Ready {
                    hash,
                    promoted: made.run.promoted,
                    failed: made.run.failed,
                    removed: made.run.removed,
                },
            ),
        }
    }

    /// Prunes the tags that a block has consumed.
    ///
    /// The tags, and all that the pruned transactions provide, count as
    /// satisfied from now on. Ready transactions that provide a pruned tag
    /// leave the pool as pruned; future transactions that provide one are
    /// dropped. Future transactions whose requirements are now met are
    /// imported, the best first.
    pub fn prune_tags(&mut self, tags: Vec<Tag>) -> (r: PruneStatus)
        requires
            old(self).wf(),
        ensures
            final(self).wf(),
            final(self)@ == prune_spec(old(self)@, tag_views(tags@)).0,
            r@ == prune_spec(old(self)@, tag_views(tags@)).1,
            total_bytes(final(self)@) <= total_bytes(old(self)@),
    {
        proof {
            lemma_prune_wf(self@, tag_views(tags@));
            self.lemma_sums_fit();
        }
        let found = find_rivals(&self.ready, &tags);
        absorb_tags(&mut self.consumed, &tags);
        absorb_provided(&mut self.consumed, &self.ready, &tags);
        let ready = self.take_ready();
        let future = self.take_future();
        let sw = sweep_out(ready, &self.consumed, found.0.as_slice());
        let parts = split_by_tags(future, &tags);
        let mut failed = hashes(&parts.hit);
        let mut lost = hashes(&sw.cascaded);
        failed.append(&mut lost);
        let rv = revive_all(sw.kept, sw.kept_bytes, parts.miss, parts.miss_bytes, &self.consumed, failed);
        self.ready = rv.ready;
        self.ready_bytes = rv.ready_bytes;
        self.future = rv.future;
        self.future_bytes = rv.future_bytes;
        PruneStatus { promoted: rv.promoted, failed: rv.failed, pruned: sw.roots }
    }

    /// Removes the transactions named by `hashes`, and the ready transactions
    /// that lose a requirement with them. Returns the removed transactions:
    /// the named ready ones, then their dependents, then the named future ones.
    pub fn remove_subtree(&mut self, hashes: &[TxHash]) -> (r: Vec<Transaction>)
        requires
            old(self).wf(),
        ensures
            final(self).wf(),
            final(self)@ == remove_subtree_spec(old(self)@, hashes@).0,
            tx_views(r@) == remove_subtree_spec(old(self)@, hashes@).1,
            total_bytes(final(self)@) + sum_bytes(tx_views(r@)) == total_bytes(old(self)@),
    {
        proof {
            lemma_remove_subtree_wf(self@, hashes@);
            self.lemma_sums_fit();
        }
        let ready = self.take_ready();
        let future = self.take_future();
        let sw = sweep_out(ready, &self.consumed, hashes);
        let parts = split_by_hashes(future, hashes);
        self.ready = sw.kept;
        self.ready_bytes = sw.kept_bytes;
        self.future = parts.miss;
        self.future_bytes = parts.miss_bytes;
        let mut removed = sw.roots;
        let mut cascaded = sw.cascaded;
        let mut named_future = parts.hit;
        proof {
            lemma_tx_views_add(removed@, cascaded@);
            lemma_tx_views_add(removed@ + cascaded@, named_future@);
            lemma_sum_add(tx_views(removed@), tx_views(cascaded@));
            lemma_sum_add(tx_views(removed@) + tx_views(cascaded@), tx_views(named_future@));
            lemma_sweep_sizes(old(self)@.ready, old(self)@.consumed, hashes@);
        }
        removed.append(&mut cascaded);
        removed.append(&mut named_future);
        removed
    }

    /// Evicts transactions until both partitions are within their limits:
    /// each time the one with the lowest priority, the oldest among equals.
    /// A ready transaction takes its dependents with it.
    pub fn enforce_limits(&mut self, ready: &Limit, future: &Limit) -> (r: Vec<Transaction>)
        requires
            old(self).wf(),
        ensures
            final(self).wf(),
            final(self)@ == enforce_limits_spec(old(self)@, ready@, future@).0,
            tx_views(r@) == enforce_limits_spec(old(self)@, ready@, future@).1,
            total_bytes(final(self)@) <= total_bytes(old(self)@),
            !exceeded(
                ready@,
                final(self)@.ready.len() as int,
                sum_bytes(final(self)@.ready),
            ),
            !exceeded(
                future@,
                final(self)@.future.len() as int,
                sum_bytes(final(self)@.future),
            ),
    {
        proof {
            lemma_enforce_limits_wf(self@, ready@, future@);
            self.lemma_sums_fit();
        }
        let ghost cv = tag_views(self.consumed@);
        let ghost goal_ready = trim_ready(tx_views(self.ready@), cv, ready@, Seq::empty());
        let mut removed: Vec<Transaction> = Vec::new();
        let mut pool = self.take_ready();
        let mut pool_bytes: usize = self.ready_bytes;
        proof {
            assert(tx_views(removed@) =~= Seq::<TxView>::empty());
        }
        while pool.len() > 0 && ready.is_exceeded(pool.len(), pool_bytes)
            invariant
                cv == tag_views(self.consumed@),
                pool_bytes == sum_bytes(tx_views(pool@)),
                pool_bytes <= old(self).ready_bytes,
                goal_ready == trim_ready(tx_views(pool@), cv, ready@, tx_views(removed@)),
            decreases pool.len(),
        {
            let w = find_worst(&pool);
            let mut doomed: Vec<TxHash> = Vec::new();
            doomed.push(pool[w].hash);
            proof {
                assert(doomed@ =~= seq![tx_views(pool@)[worst(tx_views(pool@))].hash]);
                assert(doomed@[0] == tx_views(pool@)[w as int].hash);
                assert(doomed@.contains(tx_views(pool@)[w as int].hash));
                lemma_sweep_hits(tx_views(pool@), cv, doomed@, w as int);
            }
            let sw = sweep_out(pool, &self.consumed, doomed.as_slice());
            let mut roots = sw.roots;
            let mut cascaded = sw.cascaded;
            proof {
                lemma_tx_views_add(removed@, roots@);
                lemma_tx_views_add(removed@ + roots@, cascaded@);
            }
            removed.append(&mut roots);
            removed.append(&mut cascaded);
            pool = sw.kept;
            pool_bytes = sw.kept_bytes;
        }
        let ghost after_ready = tx_views(removed@);
        proof {
            lemma_sum_nonneg(tx_views(pool@));
        }
        self.ready = pool;
        self.ready_bytes = pool_bytes;
        let ghost goal_future = trim_future(tx_views(self.future@), future@, after_ready);
        let mut waiting = self.take_future();
        let mut waiting_bytes: usize = self.future_bytes;
        while waiting.len() > 0 && future.is_exceeded(waiting.len(), waiting_bytes)
            invariant
                waiting_bytes == sum_bytes(tx_views(waiting@)),
                waiting_bytes <= old(self).future_bytes,
                goal_future == trim_future(tx_views(waiting@), future@, tx_views(removed@)),
            decreases waiting.len(),
        {
            let w = find_worst(&waiting);
            proof {
                lemma_tx_views_remove(waiting@, w as int);
                lemma_sum_remove(tx_views(waiting@), w as int);
                lemma_sum_nonneg(tx_views(waiting@).remove(w as int));
            }
            let tx = waiting.remove(w);
            waiting_bytes = waiting_bytes - tx.bytes;
            proof {
                lemma_tx_views_push(removed@, tx);
            }
            removed.push(tx);
        }
        proof {
            lemma_sum_nonneg(tx_views(waiting@));
            if waiting.len() > 0 {
                lemma_worst(tx_views(waiting@));
            }
        }
        self.future = waiting;
        self.future_bytes = waiting_bytes;
        removed
    }

    /// The ready transactions in the order in which they are to be included:
    /// a transaction after those that provide what it requires; among those
    /// that can come next, the one with the highest priority, then the
    /// earliest arrival, then the smallest hash. The order is a function of
    /// the pool's value alone: pools of equal value hand out equal sequences.
    pub fn ready(&self) -> (r: Vec<Transaction>)
        ensures
            tx_views(r@) == ready_order(self@),
    {
        let ghost cv = tag_views(self.consumed@);
        let mut pending = duplicate_all(&self.ready);
        let mut done: Vec<Transaction> = Vec::new();
        proof {
            assert(tx_views(done@) =~= Seq::<TxView>::empty());
        }
        let mut choice = choose_next(&done, &self.consumed, &pending);
        while choice.is_some()
            invariant
                cv == tag_views(self.consumed@),
                as_choice(choice) == pick(tx_views(done@), cv, tx_views(pending@)),
                choice is Some ==> choice.unwrap() < pending.len(),
                ready_order(self@) == emit(tx_views(pending@), tx_views(done@), cv),
            decreases pending.len(),
        {
            let i: usize = choice.unwrap();
            proof {
                lemma_tx_views_remove(pending@, i as int);
            }
            let tx = pending.remove(i);
            proof {
                lemma_tx_views_push(done@, tx);
            }
            done.push(tx);
            choice = choose_next(&done, &self.consumed, &pending);
        }
        done
    }

    /// The future transactions in the order in which they arrived.
    pub fn futures(&self) -> (r: Vec<Transaction>)
        ensures
            tx_views(r@) == self@.future,
    {
        duplicate_all(&self.future)
    }

    /// Counts and byte sums of the two partitions.
    pub fn status(&self) -> (r: PoolStatus)
        requires
            self.wf(),
        ensures
            r.ready == status_spec(self@).ready,
            r.ready_bytes == status_spec(self@).ready_bytes,
            r.future == status_spec(self@).future,
            r.future_bytes == status_spec(self@).future_bytes,
    {
        PoolStatus {
            ready: self.ready.len(),
            ready_bytes: self.ready_bytes,
            future: self.future.len(),
            future_bytes: self.future_bytes,
        }
    }

    /// The ready transaction with the hash `hash`.
    pub fn ready_by_hash(&self, hash: &TxHash) -> (r: Option<Transaction>)
        ensures
            optional_view(r) == lookup(self@.ready, *hash),
    {
        proof {
            lemma_lookup_some(self@.ready, *hash);
        }
        match position_of(&self.ready, *hash) {
            Some(i) => {
                proof {
                    assert(tx_views(self.ready@)[i as int].hash == *hash);
                    assert forall|j: int| 0 <= j < i implies (#[trigger] tx_views(
                        self.ready@,
                    )[j]).hash != *hash by {
                        assert(self.ready@[j].hash != *hash);
                    }
                    lemma_lookup_first(self@.ready, *hash, i as int);
                }
                Some(self.ready[i].duplicate())
            },
            None => None,
        }
    }

    /// The transaction of either partition with the hash `hash`.
    pub fn by_hash(&self, hash: &TxHash) -> (r: Option<Transaction>)
        ensures
            optional_view(r) == lookup_pool(self@, *hash),
    {
        proof {
            lemma_lookup_some(self@.future, *hash);
        }
        match self.ready_by_hash(hash) {
            Some(t) => Some(t),
            None => match position_of(&self.future, *hash) {
                Some(i) => {
                    proof {
                        assert(tx_views(self.future@)[i as int].hash == *hash);
                        assert forall|j: int| 0 <= j < i implies (#[trigger] tx_views(
                            self.future@,
                        )[j]).hash != *hash by {
                            assert(self.future@[j].hash != *hash);
                        }
                        lemma_lookup_first(self@.future, *hash, i as int);
                    }
                    Some(self.future[i].duplicate())
                },
                None => None,
            },
        }
    }

    /// For each hash of `hashes`, the transaction of the pool that has it.
    pub fn by_hashes(&self, hashes: &[TxHash]) -> (r: Vec<Option<Transaction>>)
        ensures
            r.len() == hashes.len(),
            forall|i: int|
                0 <= i < hashes.len() ==> optional_view(#[trigger] r@[i]) == lookup_pool(
                    self@,
                    hashes@[i],
                ),
    {
        let mut out: Vec<Option<Transaction>> = Vec::new();
        let mut i: usize = 0;
        while i < hashes.len()
            invariant
                i <= hashes.len(),
                out.len() == i,
                forall|k: int|
                    0 <= k < i ==> optional_view(#[trigger] out@[k]) == lookup_pool(
                        self@,
                        hashes@[k],
                    ),
            decreases hashes.len() - i,
        {
            let found = self.by_hash(&hashes[i]);
            out.push(found);
            i += 1;
        }
        out
    }

    /// Whether a transaction with the hash `hash` is in the pool.
    pub fn is_imported(&self, hash: &TxHash) -> (r: bool)
        ensures
            r == (has_hash(self@.ready, *hash) || has_hash(self@.future, *hash)),
    {
        position_of(&self.ready, *hash).is_some() || position_of(&self.future, *hash).is_some()
    }

    /// Empties the future partition and returns what it held.
    pub fn clear_future(&mut self) -> (r: Vec<Transaction>)
        requires
            old(self).wf(),
        ensures
            final(self).wf(),
            final(self)@ == (PoolState { future: Seq::empty(), ..old(self)@ }),
            tx_views(r@) == old(self)@.future,
            total_bytes(final(self)@) + sum_bytes(tx_views(r@)) == total_bytes(old(self)@),
    {
        proof {
            self.lemma_sums_fit();
        }
        let cleared = self.take_future();
        self.future_bytes = 0;
        proof {
            assert(tx_views(self.future@) =~= Seq::<TxView>::empty());
        }
        cleared
    }

    /// A pool with the same value.
    pub fn duplicate(&self) -> (r: Self)
        ensures
            r@ == self@,
            self.wf() ==> r.wf(),
    {
        BasePool {
            reject_future_transactions: self.reject_future_transactions,
            ready: duplicate_all(&self.ready),
            future: duplicate_all(&self.future),
            consumed: copy_tags(&self.consumed),
            ready_bytes: self.ready_bytes,
            future_bytes: self.future_bytes,
        }
    }

    /// Whether transactions with unmet requirements are refused.
    pub fn rejects_future(&self) -> (r: bool)
        ensures
            r == self@.reject_future,
    {
        self.reject_future_transactions
    }

    /// Lets the pool hold transactions with unmet requirements, and returns
    /// whether it refused them before.
    pub fn suspend_future_rejection(&mut self) -> (r: bool)
        requires
            old(self).wf(),
        ensures
            final(self).wf(),
            r == old(self)@.reject_future,
            final(self)@ == (PoolState { reject_future: false, ..old(self)@ }),
    {
        let before = self.reject_future_transactions;
        self.reject_future_transactions = false;
        before
    }

    /// Runs `f` on the pool while it holds transactions with unmet
    /// requirements whatever its rules say, and puts the rule back
    /// afterwards. `f` is told whether the pool refuses such transactions
    /// otherwise.
    pub fn with_futures_enabled<T, F: FnOnce(&mut BasePool, bool) -> T>(&mut self, f: F) -> (r: T)
        requires
            old(self).wf(),
            forall|p: &mut BasePool, b: bool|
                p.wf() && p@ == (PoolState { reject_future: false, ..old(self)@ }) && b == old(
                    self,
                )@.reject_future ==> call_requires(f, (p, b)),
            forall|p: &mut BasePool, b: bool, out: T|
                call_ensures(f, (p, b), out) ==> final(p).wf(),
        ensures
            final(self).wf(),
            exists|p: &mut BasePool|
                p@ == (PoolState { reject_future: false, ..old(self)@ }) && call_ensures(
                    f,
                    (p, old(self)@.reject_future),
                    r,
                ) && final(self)@ == (PoolState {
                    reject_future: old(self)@.reject_future,
                    ..final(p)@
                }),
    {
        let reject = self.suspend_future_rejection();
        let out = f(self, reject);
        self.restore_future_rejection(reject);
        out
    }

    /// Sets whether transactions with unmet requirements are refused.
    pub fn restore_future_rejection(&mut self, reject: bool)
        requires
            old(self).wf(),
        ensures
            final(self).wf(),
            final(self)@ == (PoolState { reject_future: reject, ..old(self)@ }),
    {
        self.reject_future_transactions = reject;
    }
}

} // verus!
