//! Resubmission of revalidated transactions: its model, and the ordered map
//! of `indexmap` in which the caller hands the new verdicts over.

use vstd::prelude::*;
use indexmap::IndexMap;
use crate::facts::{lemma_take_all, lemma_take_step};
use crate::listener::PoolEvent;
use crate::model::{hashes_of, import_spec, remove_subtree_spec, ImportedView, PoolState};
use crate::types::{TxHash, TxView};
use crate::validated_pool::{
    notice_event, verdict_bytes, Core, Notice, ValidatedTransaction, VerdictView,
};

verus! {

/// The insertion-ordered map of `indexmap`, carried opaquely.
#[verifier::external_type_specification]
#[verifier::external_body]
#[verifier::reject_recursive_types(K)]
#[verifier::reject_recursive_types(V)]
#[verifier::reject_recursive_types(S)]
pub struct ExIndexMap<K, V, S>(IndexMap<K, V, S>);

/// A hash with the verdict on its transaction.
pub struct Entry {
    pub hash: TxHash,
    pub verdict: VerdictView,
}

/// What an ordered map of verdicts holds: its entries in their order.
pub uninterp spec fn map_entries(map: IndexMap<TxHash, ValidatedTransaction>) -> Seq<Entry>;

/// The first position at which `entries` holds the key `hash`, if it holds it.
pub open spec fn key_position(entries: Seq<Entry>, hash: TxHash) -> Option<int>
    decreases entries.len(),
{
    if entries.len() == 0 {
        None
    } else {
        match key_position(entries.drop_last(), hash) {
            Some(i) => Some(i),
            None => if entries.last().hash == hash {
                Some(entries.len() - 1)
            } else {
                None
            },
        }
    }
}

/// `entries` without the entry of the key `hash`.
pub open spec fn strike(entries: Seq<Entry>, hash: TxHash) -> Seq<Entry> {
    match key_position(entries, hash) {
        Some(i) => entries.remove(i),
        None => entries,
    }
}

/// Calls `IndexMap::keys` and takes the first key that the iterator gives:
/// the key of the first entry, or nothing where the map is empty.
#[verifier::external_body]
pub(crate) fn first_key(map: &IndexMap<TxHash, ValidatedTransaction>) -> (r: Option<TxHash>)
    ensures
        r == if map_entries(*map).len() > 0 {
            Some(map_entries(*map)[0].hash)
        } else {
            None
        },
{
    map.keys().next().copied()
}

/// Calls `IndexMap::shift_remove`: the entry of `key` leaves the map and its
/// verdict is returned; the entries behind it move up and keep their order.
/// Where the map holds no such key, nothing changes.
#[verifier::external_body]
pub(crate) fn shift_remove(map: &mut IndexMap<TxHash, ValidatedTransaction>, key: &TxHash) -> (r:
    Option<ValidatedTransaction>)
    ensures
        map_entries(*final(map)) == strike(map_entries(*old(map)), *key),
        match key_position(map_entries(*old(map)), *key) {
            Some(i) => r is Some && r->0@ == map_entries(*old(map))[i].verdict,
            None => r is None,
        },
{
    map.shift_remove(key)
}

/// Calls `IndexMap::len`: the number of entries.
#[verifier::external_body]
pub(crate) fn entry_count(map: &IndexMap<TxHash, ValidatedTransaction>) -> (r: usize)
    ensures
        r == map_entries(*map).len(),
{
    map.len()
}

/// Calls `IndexMap::get_index` and picks the value: the verdict of the entry
/// at `i`, or nothing where the map has no such entry.
#[verifier::external_body]
pub(crate) fn verdict_at(map: &IndexMap<TxHash, ValidatedTransaction>, i: usize) -> (r: Option<
    &ValidatedTransaction,
>)
    ensures
        match r {
            Some(v) => i < map_entries(*map).len() && v@ == map_entries(*map)[i as int].verdict,
            None => i >= map_entries(*map).len(),
        },
{
    map.get_index(i).map(|(_, v)| v)
}

/// A first position is a position that holds the key, and no position holds
/// a key that has none.
pub proof fn lemma_key_position(entries: Seq<Entry>, hash: TxHash)
    ensures
        match key_position(entries, hash) {
            Some(i) => 0 <= i < entries.len() && entries[i].hash == hash && (forall|j: int|
                0 <= j < i ==> (#[trigger] entries[j]).hash != hash),
            None => forall|j: int| 0 <= j < entries.len() ==> (#[trigger] entries[j]).hash != hash,
        },
    decreases entries.len(),
{
    if entries.len() > 0 {
        lemma_key_position(entries.drop_last(), hash);
        match key_position(entries.drop_last(), hash) {
            Some(i) => {
                assert(entries[i] == entries.drop_last()[i]);
                assert forall|j: int| 0 <= j < i implies (#[trigger] entries[j]).hash != hash by {
                    assert(entries[j] == entries.drop_last()[j]);
                }
            },
            None => {
                assert forall|j: int| 0 <= j < entries.len() - 1 implies (
                #[trigger] entries[j]).hash != hash by {
                    assert(entries[j] == entries.drop_last()[j]);
                }
            },
        }
    }
}

/// The encoded length that the verdicts of `entries` may add to the pool.
pub open spec fn entries_bytes(entries: Seq<Entry>) -> int
    decreases entries.len(),
{
    if entries.len() == 0 {
        0
    } else {
        entries_bytes(entries.drop_last()) + verdict_bytes(entries.last().verdict)
    }
}

/// The length of a list of entries is not negative.
pub proof fn lemma_entries_bytes_nonneg(entries: Seq<Entry>)
    ensures
        entries_bytes(entries) >= 0,
    decreases entries.len(),
{
    if entries.len() > 0 {
        lemma_entries_bytes_nonneg(entries.drop_last());
    }
}

/// The length of a list of entries without the entry at `i`.
pub proof fn lemma_entries_bytes_remove(entries: Seq<Entry>, i: int)
    requires
        0 <= i < entries.len(),
    ensures
        entries_bytes(entries.remove(i)) == entries_bytes(entries) - verdict_bytes(
            entries[i].verdict,
        ),
    decreases entries.len(),
{
    if i == entries.len() - 1 {
        assert(entries.remove(i) =~= entries.drop_last());
    } else {
        assert(entries.remove(i).drop_last() =~= entries.drop_last().remove(i));
        lemma_entries_bytes_remove(entries.drop_last(), i);
    }
}

/// The length of a prefix of a list of entries.
pub proof fn lemma_entries_bytes_prefix(entries: Seq<Entry>, i: int)
    requires
        0 <= i <= entries.len(),
    ensures
        0 <= entries_bytes(entries.take(i)) <= entries_bytes(entries),
    decreases entries.len(),
{
    lemma_entries_bytes_nonneg(entries.take(i));
    if entries.len() == 0 {
        assert(entries.take(i) =~= entries);
    } else if i == entries.len() {
        assert(entries.take(i) =~= entries);
    } else {
        lemma_entries_bytes_prefix(entries.drop_last(), i);
        assert(entries.drop_last().take(i) =~= entries.take(i));
    }
}

/// The new verdicts that are left, and the verdicts to import again, after
/// the removed records are queued one by one: each with its new verdict,
/// which leaves the map, or as valid with the record that the pool held.
pub open spec fn requeue(entries: Seq<Entry>, queue: Seq<Entry>, removed: Seq<TxView>) -> (
    Seq<Entry>,
    Seq<Entry>,
)
    decreases removed.len(),
{
    if removed.len() == 0 {
        (entries, queue)
    } else {
        let before = requeue(entries, queue, removed.drop_last());
        let tx = removed.last();
        match key_position(before.0, tx.hash) {
            Some(i) => (
                before.0.remove(i),
                before.1.push(Entry { hash: tx.hash, verdict: before.0[i].verdict }),
            ),
            None => (
                before.0,
                before.1.push(Entry { hash: tx.hash, verdict: VerdictView::Valid(tx) }),
            ),
        }
    }
}

/// The base pool and the verdicts to import again after every transaction
/// that has a new verdict is removed from the pool with its dependents: each
/// time the first key that is left is removed.
pub open spec fn gather(base: PoolState, entries: Seq<Entry>, queue: Seq<Entry>) -> (
    PoolState,
    Seq<Entry>,
)
    decreases entries.len(),
{
    if entries.len() == 0 {
        (base, queue)
    } else {
        let hash = entries[0].hash;
        let r = remove_subtree_spec(base, seq![hash]);
        let q = requeue(entries, queue, r.1);
        let rest = strike(q.0, hash);
        if rest.len() < entries.len() {
            gather(r.0, rest, q.1)
        } else {
            (r.0, q.1)
        }
    }
}

/// Queueing never adds a new verdict, and leaves the verdicts untouched if
/// it takes none.
pub proof fn lemma_requeue(entries: Seq<Entry>, queue: Seq<Entry>, removed: Seq<TxView>)
    ensures
        requeue(entries, queue, removed).0.len() <= entries.len(),
        requeue(entries, queue, removed).0.len() == entries.len() ==> requeue(
            entries,
            queue,
            removed,
        ).0 == entries,
    decreases removed.len(),
{
    if removed.len() > 0 {
        lemma_requeue(entries, queue, removed.drop_last());
        let before = requeue(entries, queue, removed.drop_last());
        lemma_key_position(before.0, removed.last().hash);
    }
}

/// Striking the first key after queueing leaves fewer new verdicts than
/// there were.
pub proof fn lemma_gather_step(entries: Seq<Entry>, queue: Seq<Entry>, removed: Seq<TxView>)
    requires
        entries.len() > 0,
    ensures
        strike(requeue(entries, queue, removed).0, entries[0].hash).len() < entries.len(),
{
    let q = requeue(entries, queue, removed);
    lemma_requeue(entries, queue, removed);
    lemma_key_position(q.0, entries[0].hash);
    if q.0.len() == entries.len() {
        assert(q.0[0].hash == entries[0].hash);
    }
}

/// Where a transaction stands after resubmission.
#[derive(Debug, Clone, Copy, PartialEq, Eq, Structural)]
pub enum Standing {
    Future,
    Ready,
    Failed,
    Dropped,
}

/// A hash with where its transaction stands.
#[derive(Debug, Clone, Copy, PartialEq, Eq, Structural)]
pub struct Mark {
    pub hash: TxHash,
    pub standing: Standing,
}

/// The first position at which `marks` marks `hash`, if it does.
pub open spec fn marked_at(marks: Seq<Mark>, hash: TxHash) -> Option<int>
    decreases marks.len(),
{
    if marks.len() == 0 {
        None
    } else {
        match marked_at(marks.drop_last(), hash) {
            Some(i) => Some(i),
            None => if marks.last().hash == hash {
                Some(marks.len() - 1)
            } else {
                None
            },
        }
    }
}

/// The marks with `hash` marked as `standing`: its mark is changed where it
/// has one, and appended where it has none.
pub open spec fn mark(marks: Seq<Mark>, hash: TxHash, standing: Standing) -> Seq<Mark> {
    match marked_at(marks, hash) {
        Some(i) => marks.update(i, Mark { hash, standing }),
        None => marks.push(Mark { hash, standing }),
    }
}

/// The marks with every hash of `hashes` marked as `standing`.
pub open spec fn mark_all(marks: Seq<Mark>, hashes: Seq<TxHash>, standing: Standing) -> Seq<Mark>
    decreases hashes.len(),
{
    if hashes.len() == 0 {
        marks
    } else {
        mark(mark_all(marks, hashes.drop_last(), standing), hashes.last(), standing)
    }
}

/// The marks after one verdict is imported again, given what its import did.
pub open spec fn mark_import(
    marks: Seq<Mark>,
    hash: TxHash,
    outcome: Result<ImportedView, crate::error::Error>,
) -> Seq<Mark> {
    match outcome {
        Ok(ImportedView::Ready { promoted, failed, removed, .. }) => mark_all(
            mark_all(
                mark_all(mark(marks, hash, Standing::Ready), promoted, Standing::Ready),
                failed,
                Standing::Failed,
            ),
            hashes_of(removed),
            Standing::Dropped,
        ),
        Ok(ImportedView::Future { .. }) => mark(marks, hash, Standing::Future),
        Err(_) => mark(marks, hash, Standing::Failed),
    }
}

/// The base pool and the marks after the queued verdicts are imported again
/// in order. A verdict other than "valid" marks its transaction as failed.
pub open spec fn reimport(base: PoolState, queue: Seq<Entry>, marks: Seq<Mark>) -> (
    PoolState,
    Seq<Mark>,
)
    decreases queue.len(),
{
    if queue.len() == 0 {
        (base, marks)
    } else {
        let before = reimport(base, queue.drop_last(), marks);
        match queue.last().verdict {
            VerdictView::Valid(tx) => (
                import_spec(before.0, tx).0,
                mark_import(before.1, queue.last().hash, import_spec(before.0, tx).1),
            ),
            _ => (before.0, mark(before.1, queue.last().hash, Standing::Failed)),
        }
    }
}

/// The hashes of a list of entries, in order.
pub open spec fn keys_of(entries: Seq<Entry>) -> Seq<TxHash> {
    entries.map_values(|e: Entry| e.hash)
}

/// What is told of a transaction that stands as `standing`.
pub open spec fn standing_notice(standing: Standing) -> Notice {
    match standing {
        Standing::Future => Notice::Future,
        Standing::Ready => Notice::Ready,
        Standing::Dropped => Notice::Dropped,
        Standing::Failed => Notice::Invalid,
    }
}

/// Whether a mark is worth an event: a transaction that was taken out of the
/// pool and is ready again goes unmentioned.
pub open spec fn is_news(m: Mark, known: Seq<TxHash>) -> bool {
    !(known.contains(m.hash) && m.standing == Standing::Ready)
}

/// The events that tell where the marked transactions stand, in the order
/// of the marks.
pub open spec fn announce(marks: Seq<Mark>, known: Seq<TxHash>) -> Seq<PoolEvent>
    decreases marks.len(),
{
    if marks.len() == 0 {
        Seq::empty()
    } else if is_news(marks.last(), known) {
        announce(marks.drop_last(), known).push(
            notice_event(standing_notice(marks.last().standing), marks.last().hash),
        )
    } else {
        announce(marks.drop_last(), known)
    }
}

/// The pool after the transactions of `entries` are resubmitted with their
/// new verdicts.
///
/// Every transaction that has a new verdict is removed with its dependents.
/// What was removed is imported again, with the new verdict where there is
/// one, while the pool holds future transactions whatever its rules say.
/// If the pool refuses future transactions, the future partition is then
/// emptied and what it held is dropped. At last the watchers are told where
/// each transaction stands, unless it was removed and is ready again.
pub open spec fn resubmit_spec(c: Core, entries: Seq<Entry>) -> Core {
    let g = gather(c.base, entries, Seq::empty());
    let r = reimport(PoolState { reject_future: false, ..g.0 }, g.1, Seq::empty());
    let marks = if c.base.reject_future {
        mark_all(r.1, hashes_of(r.0.future), Standing::Dropped)
    } else {
        r.1
    };
    Core {
        base: PoolState {
            future: if c.base.reject_future {
                Seq::empty()
            } else {
                r.0.future
            },
            reject_future: c.base.reject_future,
            ..r.0
        },
        events: c.events + announce(marks, keys_of(g.1)),
        ..c
    }
}

/// The values of a queue of verdicts.
pub open spec fn queue_views(queue: Seq<(TxHash, ValidatedTransaction)>) -> Seq<Entry> {
    queue.map_values(|p: (TxHash, ValidatedTransaction)| Entry { hash: p.0, verdict: p.1@ })
}

/// The values of a queue with one more verdict.
pub proof fn lemma_queue_push(queue: Seq<(TxHash, ValidatedTransaction)>, p: (
    TxHash,
    ValidatedTransaction,
))
    ensures
        queue_views(queue.push(p)) == queue_views(queue).push(Entry { hash: p.0, verdict: p.1@ }),
{
    assert(queue_views(queue.push(p)) =~= queue_views(queue).push(
        Entry { hash: p.0, verdict: p.1@ },
    ));
}

/// The first position at which `marks` marks `hash`.
fn find_mark(marks: &Vec<Mark>, hash: TxHash) -> (r: Option<usize>)
    ensures
        match r {
            Some(i) => marked_at(marks@, hash) == Some(i as int) && i < marks.len(),
            None => marked_at(marks@, hash) is None,
        },
{
    let mut i: usize = 0;
    while i < marks.len()
        invariant
            i <= marks.len(),
            forall|j: int| 0 <= j < i ==> (#[trigger] marks@[j]).hash != hash,
        decreases marks.len() - i,
    {
        if marks[i].hash == hash {
            proof {
                lemma_marked_at(marks@, hash);
                assert(marks@[i as int].hash == hash);
                match marked_at(marks@, hash) {
                    Some(k) => {
                        if k < i {
                            assert(marks@[k].hash != hash);
                        } else if k > i {
                            assert(marks@[i as int].hash != hash);
                        }
                    },
                    None => {},
                }
            }
            return Some(i);
        }
        i += 1;
    }
    proof {
        lemma_marked_at(marks@, hash);
        if marked_at(marks@, hash) is Some {
            let k = marked_at(marks@, hash).unwrap();
            assert(marks@[k].hash != hash);
        }
    }
    None
}

/// Marks `hash` as `standing`.
pub fn set_mark(marks: &mut Vec<Mark>, hash: TxHash, standing: Standing)
    ensures
        final(marks)@ == mark(old(marks)@, hash, standing),
{
    match find_mark(marks, hash) {
        Some(i) => {
            marks.set(i, Mark { hash, standing });
        },
        None => {
            marks.push(Mark { hash, standing });
        },
    }
}

/// A first position of a mark is a position that marks the hash, and no
/// position marks a hash that has none.
pub proof fn lemma_marked_at(marks: Seq<Mark>, hash: TxHash)
    ensures
        match marked_at(marks, hash) {
            Some(i) => 0 <= i < marks.len() && marks[i].hash == hash && (forall|j: int|
                0 <= j < i ==> (#[trigger] marks[j]).hash != hash),
            None => forall|j: int| 0 <= j < marks.len() ==> (#[trigger] marks[j]).hash != hash,
        },
    decreases marks.len(),
{
    if marks.len() > 0 {
        lemma_marked_at(marks.drop_last(), hash);
        match marked_at(marks.drop_last(), hash) {
            Some(i) => {
                assert(marks[i] == marks.drop_last()[i]);
                assert forall|j: int| 0 <= j < i implies (#[trigger] marks[j]).hash != hash by {
                    assert(marks[j] == marks.drop_last()[j]);
                }
            },
            None => {
                assert forall|j: int| 0 <= j < marks.len() - 1 implies (#[trigger] marks[j]).hash
                    != hash by {
                    assert(marks[j] == marks.drop_last()[j]);
                }
            },
        }
    }
}

/// Marks every hash of `hashes` as `standing`.
pub fn set_marks(marks: &mut Vec<Mark>, hashes: &Vec<TxHash>, standing: Standing)
    ensures
        final(marks)@ == mark_all(old(marks)@, hashes@, standing),
{
    let ghost start = marks@;
    let mut i: usize = 0;
    proof {
        assert(hashes@.take(0) =~= Seq::<TxHash>::empty());
    }
    while i < hashes.len()
        invariant
            i <= hashes.len(),
            marks@ == mark_all(start, hashes@.take(i as int), standing),
        decreases hashes.len() - i,
    {
        proof {
            lemma_take_step(hashes@, i as int);
        }
        set_mark(marks, hashes[i], standing);
        i += 1;
    }
    proof {
        lemma_take_all(hashes@);
    }
}

} // verus!
