//! Laws of the base pool: what holds of every pool, and how its operations
//! relate to each other.

use vstd::prelude::*;
use crate::facts::{lemma_hashes_contains, lemma_lookup_first, lemma_lookup_some, lemma_pick};
use crate::invariants::{
    lemma_enforce_limits_wf, lemma_filter_subset, lemma_import_wf, lemma_met_subset,
    lemma_ordered_push, lemma_place, lemma_prune_wf, lemma_remove_subtree_wf, lemma_subset_remove,
    lemma_subset_self, lemma_subset_trans, lemma_sweep_parts, settled, subset, without_lists,
};
use crate::model::{
    absorb, all_met, all_provides, bystanders, compatible, consumed_after, disjoint, distinct, emit,
    enforce_limits_spec, has_hash, hashes_of, hits, import_ready, import_spec, is_named, is_unnamed,
    lookup_pool, max_priority, misses, named, ordered, pick, place, pool_wf, promote_all,
    provides_any, prune_spec, ready_order, remove_subtree_spec, revive, rivals, status_spec,
    sum_bytes, sweep, unnamed, usurp, without, ImportedView, LimitView, Placement, PoolState,
    PruneView, Sweep,
};
use crate::error::Error;
use crate::types::{TxHash, TxView};

verus! {

/// An operation of the base pool.
pub enum Operation {
    /// Import a record.
    Import(TxView),
    /// Prune tags.
    Prune(Seq<Seq<u8>>),
    /// Remove the named records with their dependents.
    Remove(Seq<TxHash>),
    /// Enforce the limits of the ready and of the future partition.
    Enforce(LimitView, LimitView),
    /// Empty the future partition.
    ClearFuture,
    /// Set whether records with unmet requirements are refused.
    RejectFuture(bool),
}

/// The pool after one operation.
pub open spec fn apply(s: PoolState, op: Operation) -> PoolState {
    match op {
        Operation::Import(tx) => import_spec(s, tx).0,
        Operation::Prune(tags) => prune_spec(s, tags).0,
        Operation::Remove(hashes) => remove_subtree_spec(s, hashes).0,
        Operation::Enforce(ready, future) => enforce_limits_spec(s, ready, future).0,
        Operation::ClearFuture => PoolState { future: Seq::empty(), ..s },
        Operation::RejectFuture(reject) => PoolState { reject_future: reject, ..s },
    }
}

/// The pool after a sequence of operations.
pub open spec fn run(s: PoolState, ops: Seq<Operation>) -> PoolState
    decreases ops.len(),
{
    if ops.len() == 0 {
        s
    } else {
        apply(run(s, ops.drop_last()), ops.last())
    }
}

/// The empty pool.
pub open spec fn empty_pool(reject_future: bool) -> PoolState {
    PoolState { ready: Seq::empty(), future: Seq::empty(), consumed: Seq::empty(), reject_future }
}

/// Every operation keeps the invariant of the pool.
pub proof fn law_apply_keeps_invariant(s: PoolState, op: Operation)
    requires
        pool_wf(s),
    ensures
        pool_wf(apply(s, op)),
{
    match op {
        Operation::Import(tx) => lemma_import_wf(s, tx),
        Operation::Prune(tags) => lemma_prune_wf(s, tags),
        Operation::Remove(hashes) => lemma_remove_subtree_wf(s, hashes),
        Operation::Enforce(ready, future) => lemma_enforce_limits_wf(s, ready, future),
        Operation::ClearFuture => {},
        Operation::RejectFuture(_) => {},
    }
}

/// Whatever is done to a pool that started empty, its invariant holds: a
/// hash occurs once over both partitions, a tag has at most one ready
/// provider, the ready partition is in dependency order and no future record
/// could be ready.
pub proof fn law_reachable_pools_are_well_formed(reject_future: bool, ops: Seq<Operation>)
    ensures
        pool_wf(run(empty_pool(reject_future), ops)),
    decreases ops.len(),
{
    if ops.len() > 0 {
        law_reachable_pools_are_well_formed(reject_future, ops.drop_last());
        law_apply_keeps_invariant(run(empty_pool(reject_future), ops.drop_last()), ops.last());
    }
}

/// A hash is in at most one partition, at one place of it, and looking the
/// hash up gives the very record that the partition holds.
pub proof fn law_one_record_per_hash(s: PoolState, hash: TxHash)
    requires
        pool_wf(s),
    ensures
        !(has_hash(s.ready, hash) && has_hash(s.future, hash)),
        forall|i: int, j: int|
            0 <= i < s.ready.len() && 0 <= j < s.ready.len() && (#[trigger] s.ready[i]).hash == hash
                && (#[trigger] s.ready[j]).hash == hash ==> i == j,
        forall|i: int, j: int|
            0 <= i < s.future.len() && 0 <= j < s.future.len() && (#[trigger] s.future[i]).hash
                == hash && (#[trigger] s.future[j]).hash == hash ==> i == j,
        forall|i: int|
            0 <= i < s.ready.len() && (#[trigger] s.ready[i]).hash == hash ==> lookup_pool(s, hash)
                == Some(s.ready[i]),
        forall|i: int|
            0 <= i < s.future.len() && (#[trigger] s.future[i]).hash == hash ==> lookup_pool(
                s,
                hash,
            ) == Some(s.future[i]),
        lookup_pool(s, hash) is Some == (has_hash(s.ready, hash) || has_hash(s.future, hash)),
{
    lemma_lookup_some(s.ready, hash);
    lemma_lookup_some(s.future, hash);
    if has_hash(s.ready, hash) && has_hash(s.future, hash) {
        let i = choose|i: int| 0 <= i < s.ready.len() && (#[trigger] s.ready[i]).hash == hash;
        let j = choose|j: int| 0 <= j < s.future.len() && (#[trigger] s.future[j]).hash == hash;
        assert(s.ready[i].hash != s.future[j].hash);
    }
    assert forall|i: int, j: int|
        0 <= i < s.ready.len() && 0 <= j < s.ready.len() && (#[trigger] s.ready[i]).hash == hash && (
        #[trigger] s.ready[j]).hash == hash implies i == j by {
        if i < j {
            assert(compatible(s.ready[i], s.ready[j]));
        } else if j < i {
            assert(compatible(s.ready[j], s.ready[i]));
        }
    }
    assert forall|i: int, j: int|
        0 <= i < s.future.len() && 0 <= j < s.future.len() && (#[trigger] s.future[i]).hash == hash
            && (#[trigger] s.future[j]).hash == hash implies i == j by {
        if i < j {
            assert(s.future[i].hash != s.future[j].hash);
        } else if j < i {
            assert(s.future[j].hash != s.future[i].hash);
        }
    }
    assert forall|i: int| 0 <= i < s.ready.len() && (#[trigger] s.ready[i]).hash == hash implies lookup_pool(
        s,
        hash,
    ) == Some(s.ready[i]) by {
        assert forall|j: int| 0 <= j < i implies (#[trigger] s.ready[j]).hash != hash by {
            assert(compatible(s.ready[j], s.ready[i]));
        }
        lemma_lookup_first(s.ready, hash, i);
    }
    assert forall|i: int| 0 <= i < s.future.len() && (#[trigger] s.future[i]).hash == hash implies lookup_pool(
        s,
        hash,
    ) == Some(s.future[i]) by {
        assert forall|j: int| 0 <= j < i implies (#[trigger] s.future[j]).hash != hash by {
            assert(s.future[j].hash != s.future[i].hash);
        }
        lemma_lookup_first(s.future, hash, i);
        if has_hash(s.ready, hash) {
            let k = choose|k: int| 0 <= k < s.ready.len() && (#[trigger] s.ready[k]).hash == hash;
            assert(s.ready[k].hash != s.future[i].hash);
        }
    }
}

/// The status is what a full scan of the partitions gives.
pub proof fn law_status_matches_scan(s: PoolState)
    ensures
        status_spec(s).ready == s.ready.len(),
        status_spec(s).future == s.future.len(),
        status_spec(s).ready_bytes == sum_bytes(s.ready),
        status_spec(s).future_bytes == sum_bytes(s.future),
{
}

/// The records still to be handed out can all be handed out: each has its
/// requirements met by what was handed out and what is pending before it.
spec fn flowing(pending: Seq<TxView>, done: Seq<TxView>, consumed: Seq<Seq<u8>>) -> bool {
    forall|k: int|
        0 <= k < pending.len() ==> all_met(done + pending.take(k), consumed, #[trigger] pending[k])
}

/// Handing a record out keeps the rest flowing.
proof fn lemma_flowing_step(pending: Seq<TxView>, done: Seq<TxView>, consumed: Seq<Seq<u8>>, i: int)
    requires
        flowing(pending, done, consumed),
        0 <= i < pending.len(),
    ensures
        flowing(pending.remove(i), done.push(pending[i]), consumed),
{
    let left = pending.remove(i);
    let taken = done.push(pending[i]);
    assert forall|k: int| 0 <= k < left.len() implies all_met(
        taken + left.take(k),
        consumed,
        #[trigger] left[k],
    ) by {
        let k0 = if k < i { k } else { k + 1 };
        assert(left[k] == pending[k0]);
        let before = done + pending.take(k0);
        let after = taken + left.take(k);
        assert(all_met(before, consumed, pending[k0]));
        assert forall|x: int| 0 <= x < before.len() implies after.contains(#[trigger] before[x]) by {
            if x < done.len() {
                assert(after[x] == before[x]);
            } else {
                let y = x - done.len();
                if y < i {
                    assert(after[taken.len() + y] == before[x]);
                } else if y == i {
                    assert(after[done.len() as int] == before[x]);
                } else {
                    assert(after[taken.len() + y - 1] == before[x]);
                }
            }
        }
        lemma_met_subset(before, after, consumed, pending[k0]);
    }
}

/// Handing out goes on until nothing is pending; what is handed out is in
/// dependency order and holds the pending records and no others.
proof fn lemma_emit(pending: Seq<TxView>, done: Seq<TxView>, consumed: Seq<Seq<u8>>)
    requires
        flowing(pending, done, consumed),
        ordered(done, consumed),
    ensures
        ordered(emit(pending, done, consumed), consumed),
        emit(pending, done, consumed).len() == done.len() + pending.len(),
        subset(done + pending, emit(pending, done, consumed)),
        subset(emit(pending, done, consumed), done + pending),
    decreases pending.len(),
{
    lemma_pick(done, consumed, pending);
    if pending.len() > 0 {
        assert(done + pending.take(0) =~= done);
        assert(all_met(done, consumed, pending[0]));
        let i = pick(done, consumed, pending).unwrap();
        let left = pending.remove(i);
        let taken = done.push(pending[i]);
        lemma_flowing_step(pending, done, consumed, i);
        lemma_ordered_push(done, consumed, pending[i]);
        lemma_emit(left, taken, consumed);
        let out = emit(left, taken, consumed);
        let a = done + pending;
        let b = taken + left;
        assert forall|x: int| 0 <= x < a.len() implies b.contains(#[trigger] a[x]) by {
            if x < done.len() {
                assert(b[x] == a[x]);
            } else {
                let y = x - done.len();
                if y < i {
                    assert(b[taken.len() + y] == a[x]);
                } else if y == i {
                    assert(b[done.len() as int] == a[x]);
                } else {
                    assert(b[taken.len() + y - 1] == a[x]);
                }
            }
        }
        assert forall|x: int| 0 <= x < b.len() implies a.contains(#[trigger] b[x]) by {
            if x < done.len() {
                assert(a[x] == b[x]);
            } else if x == done.len() {
                assert(a[done.len() + i] == b[x]);
            } else {
                let y = x - taken.len();
                if y < i {
                    assert(a[done.len() + y] == b[x]);
                } else {
                    assert(a[done.len() + y + 1] == b[x]);
                }
            }
        }
        lemma_subset_trans(a, b, out);
        lemma_subset_trans(out, b, a);
    } else {
        assert(done + pending =~= done);
        lemma_subset_self(done);
    }
}

/// The ready records are handed out in dependency order: every requirement
/// of a record is provided by a record handed out before it, or consumed by
/// the chain. All ready records are handed out, and no others.
pub proof fn law_ready_order_respects_dependencies(s: PoolState)
    requires
        pool_wf(s),
    ensures
        ordered(ready_order(s), s.consumed),
        ready_order(s).len() == s.ready.len(),
        subset(s.ready, ready_order(s)),
        subset(ready_order(s), s.ready),
{
    let none = Seq::<TxView>::empty();
    assert forall|k: int| 0 <= k < s.ready.len() implies all_met(
        none + s.ready.take(k),
        s.consumed,
        #[trigger] s.ready[k],
    ) by {
        assert(none + s.ready.take(k) =~= s.ready.take(k));
    }
    lemma_emit(s.ready, none, s.consumed);
    assert(none + s.ready =~= s.ready);
}

/// The choice is better than every other record whose requirements are met.
pub proof fn lemma_pick_best(ready: Seq<TxView>, consumed: Seq<Seq<u8>>, pending: Seq<TxView>)
    requires
        distinct(pending),
    ensures
        pick(ready, consumed, pending) matches Some(i) ==> forall|j: int|
            0 <= j < pending.len() && j != i && all_met(ready, consumed, #[trigger] pending[j])
                ==> crate::model::better(pending[i], pending[j]),
    decreases pending.len(),
{
    if pending.len() > 0 {
        let rest = pending.drop_last();
        let last = pending.len() - 1;
        assert(distinct(rest)) by {
            assert forall|i: int, j: int| 0 <= i < j < rest.len() implies (#[trigger] rest[i]).hash
                != (#[trigger] rest[j]).hash by {
                assert(pending[i].hash != pending[j].hash);
            }
        }
        lemma_pick_best(ready, consumed, rest);
        lemma_pick(ready, consumed, rest);
        lemma_pick(ready, consumed, pending);
        let prev = pick(ready, consumed, rest);
        match pick(ready, consumed, pending) {
            Some(i) => {
                assert forall|j: int|
                    0 <= j < pending.len() && j != i && all_met(
                        ready,
                        consumed,
                        #[trigger] pending[j],
                    ) implies crate::model::better(pending[i], pending[j]) by {
                    if j < last {
                        assert(rest[j] == pending[j]);
                        assert(prev is Some);
                        let p = prev.unwrap();
                        assert(rest[p] == pending[p]);
                        if i == last {
                            if j != p {
                                assert(crate::model::better(rest[p], rest[j]));
                            }
                        }
                    } else {
                        assert(pending[i].hash != pending[j].hash);
                    }
                }
            },
            None => {},
        }
    }
}

/// What is handed out begins with what was handed out before and goes on
/// with pending records; and a record comes before every later one that
/// could have been taken in its place.
proof fn lemma_emit_order(pending: Seq<TxView>, done: Seq<TxView>, consumed: Seq<Seq<u8>>)
    requires
        distinct(pending),
    ensures
        emit(pending, done, consumed).len() >= done.len(),
        emit(pending, done, consumed).take(done.len() as int) == done,
        forall|b: int|
            done.len() <= b < emit(pending, done, consumed).len() ==> pending.contains(
                #[trigger] emit(pending, done, consumed)[b],
            ),
        forall|a: int, b: int|
            done.len() <= a < b < emit(pending, done, consumed).len() && all_met(
                emit(pending, done, consumed).take(a),
                consumed,
                emit(pending, done, consumed)[b],
            ) ==> crate::model::better(
                #[trigger] emit(pending, done, consumed)[a],
                #[trigger] emit(pending, done, consumed)[b],
            ),
    decreases pending.len(),
{
    let out = emit(pending, done, consumed);
    lemma_pick(done, consumed, pending);
    match pick(done, consumed, pending) {
        Some(i) => {
            let left = pending.remove(i);
            let taken = done.push(pending[i]);
            crate::invariants::lemma_remove_distinct(pending, i);
            lemma_subset_remove(pending, i);
            lemma_emit_order(left, taken, consumed);
            lemma_pick_best(done, consumed, pending);
            assert(out.take(done.len() as int) =~= done) by {
                assert(out.take(taken.len() as int) == taken);
                assert forall|k: int| 0 <= k < done.len() implies out[k] == done[k] by {
                    assert(out.take(taken.len() as int)[k] == out[k]);
                }
            }
            assert(out[done.len() as int] == pending[i]) by {
                assert(out.take(taken.len() as int)[done.len() as int] == out[done.len() as int]);
            }
            assert forall|b: int| done.len() <= b < out.len() implies pending.contains(
                #[trigger] out[b],
            ) by {
                if b == done.len() {
                    assert(pending[i] == out[b]);
                } else {
                    assert(left.contains(out[b]));
                    let k = choose|k: int| 0 <= k < left.len() && left[k] == out[b];
                    assert(pending.contains(left[k]));
                }
            }
            assert forall|a: int, b: int|
                done.len() <= a < b < out.len() && all_met(
                    out.take(a),
                    consumed,
                    out[b],
                ) implies crate::model::better(#[trigger] out[a], #[trigger] out[b]) by {
                if a == done.len() {
                    assert(out.take(a) == done);
                    assert(left.contains(out[b]));
                    let k = choose|k: int| 0 <= k < left.len() && left[k] == out[b];
                    let k0 = if k < i { k } else { k + 1 };
                    assert(left[k] == pending[k0]);
                    assert(all_met(done, consumed, pending[k0]));
                }
            }
        },
        None => {
            assert(out.take(done.len() as int) =~= done);
        },
    }
}

/// Among the ready records that can come next, the best comes first: a
/// record is handed out before every later one whose requirements were met
/// already when it was taken, and it has the higher priority, or with the
/// same priority the earlier arrival, or with both the same the smaller hash.
pub proof fn law_ready_order_prefers_the_best(s: PoolState, a: int, b: int)
    requires
        pool_wf(s),
        0 <= a < b < ready_order(s).len(),
        all_met(ready_order(s).take(a), s.consumed, ready_order(s)[b]),
    ensures
        crate::model::better(ready_order(s)[a], ready_order(s)[b]),
{
    crate::invariants::lemma_exclusive_distinct(s.ready);
    lemma_emit_order(s.ready, Seq::empty(), s.consumed);
}

/// A filter that every record passes changes nothing.
proof fn lemma_filter_all<A>(s: Seq<A>, p: spec_fn(A) -> bool)
    requires
        forall|i: int| 0 <= i < s.len() ==> p(#[trigger] s[i]),
    ensures
        s.filter(p) == s,
    decreases s.len(),
{
    reveal(Seq::filter);
    if s.len() > 0 {
        let rest = s.drop_last();
        assert forall|i: int| 0 <= i < rest.len() implies p(#[trigger] rest[i]) by {
            assert(rest[i] == s[i]);
        }
        lemma_filter_all(rest, p);
        assert(p(s[s.len() - 1]));
        assert(rest.push(s.last()) =~= s);
    }
}

/// A filter that no record passes leaves nothing.
proof fn lemma_filter_none<A>(s: Seq<A>, p: spec_fn(A) -> bool)
    requires
        forall|i: int| 0 <= i < s.len() ==> !p(#[trigger] s[i]),
    ensures
        s.filter(p) == Seq::<A>::empty(),
    decreases s.len(),
{
    reveal(Seq::filter);
    if s.len() > 0 {
        let rest = s.drop_last();
        assert forall|i: int| 0 <= i < rest.len() implies !p(#[trigger] rest[i]) by {
            assert(rest[i] == s[i]);
        }
        lemma_filter_none(rest, p);
        assert(!p(s[s.len() - 1]));
    }
}

/// A sweep that dooms no ready record leaves a partition in dependency order
/// as it is.
pub proof fn lemma_sweep_identity(ready: Seq<TxView>, consumed: Seq<Seq<u8>>, doomed: Seq<TxHash>)
    requires
        ordered(ready, consumed),
        forall|i: int| 0 <= i < ready.len() ==> !doomed.contains((#[trigger] ready[i]).hash),
    ensures
        sweep(ready, consumed, doomed) == (Sweep {
            kept: ready,
            roots: Seq::empty(),
            cascaded: Seq::empty(),
        }),
    decreases ready.len(),
{
    if ready.len() > 0 {
        let rest = ready.drop_last();
        assert forall|k: int| 0 <= k < rest.len() implies all_met(
            rest.take(k),
            consumed,
            #[trigger] rest[k],
        ) by {
            assert(rest.take(k) =~= ready.take(k));
            assert(rest[k] == ready[k]);
        }
        assert forall|i: int| 0 <= i < rest.len() implies !doomed.contains(
            (#[trigger] rest[i]).hash,
        ) by {
            assert(rest[i] == ready[i]);
        }
        lemma_sweep_identity(rest, consumed, doomed);
        assert(ready.take(ready.len() - 1) =~= rest);
        assert(all_met(rest, consumed, ready[ready.len() - 1]));
        assert(!doomed.contains(ready[ready.len() - 1].hash));
        assert(rest.push(ready.last()) =~= ready);
    } else {
        assert(ready =~= Seq::<TxView>::empty());
    }
}

/// A sweep that takes nothing leaves the partition as it is.
proof fn lemma_sweep_nothing_taken(ready: Seq<TxView>, consumed: Seq<Seq<u8>>, doomed: Seq<TxHash>)
    requires
        sweep(ready, consumed, doomed).roots.len() == 0,
        sweep(ready, consumed, doomed).cascaded.len() == 0,
    ensures
        sweep(ready, consumed, doomed).kept == ready,
    decreases ready.len(),
{
    if ready.len() > 0 {
        let rest = ready.drop_last();
        lemma_sweep_nothing_taken(rest, consumed, doomed);
        assert(rest.push(ready.last()) =~= ready);
    } else {
        assert(ready =~= Seq::<TxView>::empty());
    }
}

/// No record has a higher priority than the highest.
proof fn lemma_max_priority(txs: Seq<TxView>, i: int)
    requires
        0 <= i < txs.len(),
    ensures
        txs[i].priority <= max_priority(txs),
    decreases txs.len(),
{
    if i < txs.len() - 1 {
        lemma_max_priority(txs.drop_last(), i);
    }
}

/// Both parts of a joined list are part of it, and what holds both parts holds
/// the joined list.
proof fn lemma_subset_join(a: Seq<TxView>, b: Seq<TxView>, c: Seq<TxView>)
    ensures
        subset(a, a + b),
        subset(b, a + b),
        subset(a, c) && subset(b, c) ==> subset(a + b, c),
{
    assert forall|i: int| 0 <= i < a.len() implies (a + b).contains(#[trigger] a[i]) by {
        assert((a + b)[i] == a[i]);
    }
    assert forall|i: int| 0 <= i < b.len() implies (a + b).contains(#[trigger] b[i]) by {
        assert((a + b)[a.len() + i] == b[i]);
    }
    if subset(a, c) && subset(b, c) {
        assert forall|i: int| 0 <= i < (a + b).len() implies c.contains(#[trigger] (a + b)[i]) by {
            if i < a.len() {
                assert((a + b)[i] == a[i]);
            } else {
                assert((a + b)[i] == b[i - a.len()]);
            }
        }
    }
}

/// After a placement, the ready records and the rest of the future records
/// are records that the pool held before.
proof fn lemma_placed_origin(
    ready: Seq<TxView>,
    next: Seq<TxView>,
    future: Seq<TxView>,
    i: int,
)
    requires
        0 <= i < future.len(),
        next.len() > 0,
        next.last() == future[i],
        subset(next.drop_last(), ready),
    ensures
        subset(next + future.remove(i), ready + future),
{
    lemma_subset_join(ready, future, ready + future);
    lemma_subset_remove(future, i);
    lemma_subset_trans(future.remove(i), future, ready + future);
    lemma_subset_trans(next.drop_last(), ready, ready + future);
    assert((ready + future).contains(future[i])) by {
        assert((ready + future)[ready.len() + i] == future[i]);
    }
    crate::invariants::lemma_subset_push(next.drop_last(), ready + future, future[i]);
    assert(next.drop_last().push(future[i]) =~= next);
    lemma_subset_join(next, future.remove(i), ready + future);
}

/// A run of promotions invents no record, and it lengthens the lists of what
/// it did as soon as it does anything.
proof fn lemma_promote_all_origin(
    ready: Seq<TxView>,
    consumed: Seq<Seq<u8>>,
    future: Seq<TxView>,
    guard: Option<TxHash>,
    promoted: Seq<TxHash>,
    failed: Seq<TxHash>,
    removed: Seq<TxView>,
)
    requires
        settled(ready, consumed, future),
    ensures
        ({
            let p = promote_all(ready, consumed, future, guard, promoted, failed, removed);
            &&& subset(p.ready, ready + future)
            &&& subset(p.future, ready + future)
            &&& p.failed.len() >= failed.len()
            &&& p.removed.len() >= removed.len()
            &&& pick(ready, consumed, future) is Some ==> p.promoted.len() > 0 || p.failed.len()
                > failed.len() || p.removed.len() > removed.len()
            &&& pick(ready, consumed, future) is None ==> p.ready == ready && p.future == future
                && p.promoted == promoted && p.failed == failed && p.removed == removed
        }),
    decreases future.len(),
{
    let choice = pick(ready, consumed, future);
    lemma_pick(ready, consumed, future);
    lemma_subset_join(ready, future, ready + future);
    if choice is Some {
        let i = choice.unwrap();
        let tx = future[i];
        let rest = future.remove(i);
        crate::invariants::lemma_choice_out(ready, future, i);
        lemma_place(ready, consumed, tx, guard);
        crate::invariants::lemma_place_settled(ready, consumed, rest, tx, guard);
        match place(ready, consumed, tx, guard) {
            Placement::Placed { ready: next, usurped, cascaded } => {
                let left = without_lists(promoted, usurped, cascaded, tx.hash);
                let f2 = failed + hashes_of(cascaded);
                let r2 = removed + usurped;
                lemma_promote_all_origin(next, consumed, rest, guard, left, f2, r2);
                let p = promote_all(next, consumed, rest, guard, left, f2, r2);
                lemma_placed_origin(ready, next, future, i);
                lemma_subset_trans(p.ready, next + rest, ready + future);
                lemma_subset_trans(p.future, next + rest, ready + future);
            },
            _ => {
                let f2 = failed.push(tx.hash);
                lemma_promote_all_origin(ready, consumed, rest, guard, promoted, f2, removed);
                let p = promote_all(ready, consumed, rest, guard, promoted, f2, removed);
                lemma_subset_remove(future, i);
                lemma_subset_self(ready);
                lemma_subset_trans(rest, future, ready + future);
                lemma_subset_join(ready, rest, ready + future);
                lemma_subset_trans(p.ready, ready + rest, ready + future);
                lemma_subset_trans(p.future, ready + rest, ready + future);
            },
        }
    }
}

/// If two transactions provide the same tag, the one with the higher
/// priority is ready and the other is not in the pool.
///
/// `b` is imported into a pool where the ready record at `a` provides `tag`,
/// which `b` provides too, and the requirements of `b` are met. If the
/// import succeeds, `b` is ready, has the higher priority, is the only ready
/// provider of `tag`, and the record at `a` has left the pool. If `b` has
/// at most the priority of that record, the import is refused for its
/// priority and the pool stays as it was. An import is refused only for
/// priority, when some ready provider of a tag of `b` has at least its
/// priority, or for a cycle, when `b` requires what it would usurp.
pub proof fn law_higher_priority_provider_wins(s: PoolState, a: int, b: TxView, tag: Seq<u8>)
    requires
        pool_wf(s),
        0 <= a < s.ready.len(),
        s.ready[a].provides.contains(tag),
        b.provides.contains(tag),
        !has_hash(s.ready, b.hash),
        !has_hash(s.future, b.hash),
        all_met(s.ready, s.consumed, b),
    ensures
        import_spec(s, b).1 is Ok ==> {
            let after = import_spec(s, b).0;
            &&& b.priority > s.ready[a].priority
            &&& has_hash(after.ready, b.hash)
            &&& !has_hash(after.ready, s.ready[a].hash)
            &&& !has_hash(after.future, s.ready[a].hash)
            &&& forall|j: int|
                0 <= j < after.ready.len() && (#[trigger] after.ready[j]).provides.contains(tag)
                    ==> after.ready[j].hash == b.hash
        },
        import_spec(s, b).1 is Err ==> {
            &&& import_spec(s, b).0 == s
            &&& (import_spec(s, b).1 == Err::<ImportedView, Error>(Error::CycleDetected)
                || import_spec(s, b).1 == Err::<ImportedView, Error>(
                Error::TooLowPriority {
                    old: max_priority(rivals(s.ready, b.provides)),
                    new: b.priority,
                },
            ))
        },
        b.priority <= s.ready[a].priority ==> import_spec(s, b).1 == Err::<ImportedView, Error>(
            Error::TooLowPriority {
                old: max_priority(rivals(s.ready, b.provides)),
                new: b.priority,
            },
        ),
        b.priority > max_priority(rivals(s.ready, b.provides)) ==> import_spec(s, b).1 is Ok
            || import_spec(s, b).1 == Err::<ImportedView, Error>(Error::CycleDetected),
{
    let old_tx = s.ready[a];
    let rv = rivals(s.ready, b.provides);
    lemma_filter_subset(s.ready, hits(b.provides));
    assert(provides_any(old_tx, b.provides));
    assert(hits(b.provides)(s.ready[a]));
    assert(rv.contains(old_tx));
    let k = choose|k: int| 0 <= k < rv.len() && rv[k] == old_tx;
    lemma_max_priority(rv, k);
    assert(hashes_of(rv)[k] == old_tx.hash);
    if import_spec(s, b).1 is Ok {
        let after = import_spec(s, b).0;
        lemma_import_wf(s, b);
        crate::invariants::lemma_import_ready(s.ready, s.consumed, s.future, b);
        lemma_place(s.ready, s.consumed, b, None);
        crate::invariants::lemma_place_settled(s.ready, s.consumed, s.future, b, None);
        let sw = usurp(s.ready, s.consumed, rv);
        let next = sw.kept.push(b);
        lemma_sweep_parts(s.ready, s.consumed, hashes_of(rv));
        lemma_promote_all_origin(
            next,
            s.consumed,
            s.future,
            Some(b.hash),
            Seq::empty(),
            hashes_of(sw.cascaded),
            sw.roots,
        );
        assert(subset(after.ready, next + s.future));
        assert(subset(after.future, s.future));
        if has_hash(after.ready, old_tx.hash) {
            let i = choose|i: int|
                0 <= i < after.ready.len() && (#[trigger] after.ready[i]).hash == old_tx.hash;
            assert((next + s.future).contains(after.ready[i]));
            let j = choose|j: int|
                0 <= j < (next + s.future).len() && (next + s.future)[j] == after.ready[i];
            if j < sw.kept.len() {
                assert(next[j] == sw.kept[j]);
                assert(!hashes_of(rv).contains(sw.kept[j].hash));
            } else if j == sw.kept.len() {
                assert(next[j] == b);
                assert(s.ready[a].hash != b.hash);
            } else {
                assert(s.ready[a].hash != s.future[j - next.len()].hash);
            }
            assert(false);
        }
        if has_hash(after.future, old_tx.hash) {
            let i = choose|i: int|
                0 <= i < after.future.len() && (#[trigger] after.future[i]).hash == old_tx.hash;
            assert(s.future.contains(after.future[i]));
            let j = choose|j: int| 0 <= j < s.future.len() && s.future[j] == after.future[i];
            assert(s.ready[a].hash != s.future[j].hash);
            assert(false);
        }
        let at = choose|at: int| 0 <= at < after.ready.len() && (#[trigger] after.ready[at]).hash
            == b.hash;
        assert((next + s.future).contains(after.ready[at]));
        let from = choose|from: int|
            0 <= from < (next + s.future).len() && (next + s.future)[from] == after.ready[at];
        if from < sw.kept.len() {
            assert(next[from] == sw.kept[from]);
            assert(s.ready.contains(sw.kept[from]));
            let o = choose|o: int| 0 <= o < s.ready.len() && s.ready[o] == sw.kept[from];
            assert(s.ready[o].hash == b.hash);
            assert(false);
        } else if from > sw.kept.len() {
            assert(s.future[from - next.len()].hash == b.hash);
            assert(false);
        }
        assert(after.ready[at] == b);
        assert forall|j: int|
            0 <= j < after.ready.len() && (#[trigger] after.ready[j]).provides.contains(
                tag,
            ) implies after.ready[j].hash == b.hash by {
            if j < at {
                assert(compatible(after.ready[j], after.ready[at]));
                assert(provides_any(after.ready[j], b.provides));
            } else if at < j {
                assert(compatible(after.ready[at], after.ready[j]));
                assert(provides_any(b, after.ready[j].provides));
            }
        }
    }
}

/// Importing a transaction and removing it again gives back the pool as it
/// was, and so its status.
///
/// This holds where the import changed nothing but the place of the
/// transaction itself: where it was refused as not yet imported, went to
/// the future partition or became ready without promoting, usurping or
/// failing another transaction.
pub proof fn law_import_then_remove_restores(s: PoolState, tx: TxView)
    requires
        pool_wf(s),
        import_spec(s, tx).1 != Err::<ImportedView, Error>(Error::AlreadyImported(tx.hash)),
        import_spec(s, tx).1 matches Ok(ImportedView::Ready { promoted, failed, removed, .. })
            ==> promoted.len() == 0 && failed.len() == 0 && removed.len() == 0,
    ensures
        remove_subtree_spec(import_spec(s, tx).0, seq![tx.hash]).0 == s,
        status_spec(remove_subtree_spec(import_spec(s, tx).0, seq![tx.hash]).0) == status_spec(s),
{
    let doomed = seq![tx.hash];
    let after = import_spec(s, tx).0;
    assert(doomed[0] == tx.hash);
    assert(!has_hash(s.ready, tx.hash) && !has_hash(s.future, tx.hash));
    assert forall|i: int| 0 <= i < s.ready.len() implies !doomed.contains(
        (#[trigger] s.ready[i]).hash,
    ) by {
        assert(s.ready[i].hash != tx.hash);
    }
    assert forall|i: int| 0 <= i < s.future.len() implies is_unnamed(doomed)(
        #[trigger] s.future[i],
    ) by {
        assert(s.future[i].hash != tx.hash);
    }
    lemma_sweep_identity(s.ready, s.consumed, doomed);
    lemma_filter_all(s.future, is_unnamed(doomed));
    if import_spec(s, tx).1 is Err {
    } else if !all_met(s.ready, s.consumed, tx) {
        s.future.lemma_filter_push(tx, is_unnamed(doomed));
    } else {
        let rv = rivals(s.ready, tx.provides);
        let sw = usurp(s.ready, s.consumed, rv);
        let next = sw.kept.push(tx);
        lemma_place(s.ready, s.consumed, tx, None);
        crate::invariants::lemma_place_settled(s.ready, s.consumed, s.future, tx, None);
        lemma_promote_all_origin(
            next,
            s.consumed,
            s.future,
            Some(tx.hash),
            Seq::empty(),
            hashes_of(sw.cascaded),
            sw.roots,
        );
        assert(sw.roots.len() == 0);
        assert(hashes_of(sw.cascaded).len() == 0);
        assert(sw.cascaded.len() == 0);
        if rv.len() > 0 {
            lemma_sweep_nothing_taken(s.ready, s.consumed, hashes_of(rv));
        }
        assert(after.ready == s.ready.push(tx));
        assert(after.future == s.future);
        assert(after.ready.drop_last() =~= s.ready);
    }
}

/// Absorbing tags keeps what was consumed and consumes the tags.
proof fn lemma_absorb_holds(consumed: Seq<Seq<u8>>, tags: Seq<Seq<u8>>)
    ensures
        forall|i: int| 0 <= i < consumed.len() ==> absorb(consumed, tags).contains(
            #[trigger] consumed[i],
        ),
        forall|i: int| 0 <= i < tags.len() ==> absorb(consumed, tags).contains(#[trigger] tags[i]),
    decreases tags.len(),
{
    if tags.len() > 0 {
        let rest = tags.drop_last();
        let before = absorb(consumed, rest);
        let now = absorb(consumed, tags);
        lemma_absorb_holds(consumed, rest);
        assert forall|x: Seq<u8>| before.contains(x) implies now.contains(x) by {
            let j = choose|j: int| 0 <= j < before.len() && before[j] == x;
            assert(now[j] == x);
        }
        assert forall|i: int| 0 <= i < tags.len() implies now.contains(#[trigger] tags[i]) by {
            if i < rest.len() {
                assert(rest[i] == tags[i]);
                assert(before.contains(rest[i]));
            } else if !before.contains(tags.last()) {
                assert(now[now.len() - 1] == tags[i]);
            }
        }
    } else {
        assert forall|i: int| 0 <= i < consumed.len() implies absorb(consumed, tags).contains(
            #[trigger] consumed[i],
        ) by {
            assert(absorb(consumed, tags)[i] == consumed[i]);
        }
    }
}

/// Absorbing tags that are consumed already changes nothing.
proof fn lemma_absorb_known(consumed: Seq<Seq<u8>>, tags: Seq<Seq<u8>>)
    requires
        forall|i: int| 0 <= i < tags.len() ==> consumed.contains(#[trigger] tags[i]),
    ensures
        absorb(consumed, tags) == consumed,
    decreases tags.len(),
{
    if tags.len() > 0 {
        let rest = tags.drop_last();
        assert forall|i: int| 0 <= i < rest.len() implies consumed.contains(#[trigger] rest[i]) by {
            assert(rest[i] == tags[i]);
        }
        lemma_absorb_known(consumed, rest);
        assert(consumed.contains(tags[tags.len() - 1]));
    }
}

/// A run of imports from the future partition invents no record, and does
/// nothing where no future record has its requirements met.
proof fn lemma_revive_origin(
    ready: Seq<TxView>,
    consumed: Seq<Seq<u8>>,
    future: Seq<TxView>,
    promoted: Seq<ImportedView>,
    failed: Seq<TxHash>,
)
    requires
        settled(ready, consumed, future),
    ensures
        ({
            let r = revive(ready, consumed, future, promoted, failed);
            &&& subset(r.ready, ready + future)
            &&& subset(r.future, ready + future)
            &&& pick(ready, consumed, future) is None ==> r.ready == ready && r.future == future
                && r.promoted == promoted && r.failed == failed
        }),
    decreases future.len(),
{
    let choice = pick(ready, consumed, future);
    lemma_pick(ready, consumed, future);
    lemma_subset_join(ready, future, ready + future);
    if choice is Some {
        let i = choice.unwrap();
        let tx = future[i];
        let rest = future.remove(i);
        crate::invariants::lemma_choice_out(ready, future, i);
        crate::invariants::lemma_import_ready(ready, consumed, rest, tx);
        lemma_subset_remove(future, i);
        lemma_subset_self(ready);
        lemma_subset_trans(rest, future, ready + future);
        lemma_subset_join(ready, rest, ready + future);
        match import_ready(ready, consumed, rest, tx) {
            Ok(p) => {
                crate::invariants::lemma_promote_len(ready, consumed, rest, tx);
                lemma_place(ready, consumed, tx, None);
                crate::invariants::lemma_place_settled(ready, consumed, rest, tx, None);
                let next = place(ready, consumed, tx, None)->ready;
                let usurped = place(ready, consumed, tx, None)->usurped;
                let cascaded = place(ready, consumed, tx, None)->cascaded;
                lemma_promote_all_origin(
                    next,
                    consumed,
                    rest,
                    Some(tx.hash),
                    Seq::empty(),
                    hashes_of(cascaded),
                    usurped,
                );
                lemma_placed_origin(ready, next, future, i);
                lemma_subset_trans(p.ready, next + rest, ready + future);
                lemma_subset_trans(p.future, next + rest, ready + future);
                let more = promoted.push(
                    ImportedView::Ready {
                        hash: tx.hash,
                        promoted: p.promoted,
                        failed: p.failed,
                        removed: p.removed,
                    },
                );
                lemma_revive_origin(p.ready, consumed, p.future, more, failed);
                let r = revive(p.ready, consumed, p.future, more, failed);
                lemma_subset_join(p.ready, p.future, ready + future);
                lemma_subset_trans(r.ready, p.ready + p.future, ready + future);
                lemma_subset_trans(r.future, p.ready + p.future, ready + future);
            },
            Err(_) => {
                lemma_revive_origin(ready, consumed, rest, promoted, failed.push(tx.hash));
                let r = revive(ready, consumed, rest, promoted, failed.push(tx.hash));
                lemma_subset_trans(r.ready, ready + rest, ready + future);
                lemma_subset_trans(r.future, ready + rest, ready + future);
            },
        }
    }
}

/// Pruning the same tags a second time does nothing: the pool stays as the
/// first pruning left it, nothing is promoted, nothing fails and nothing is
/// pruned.
pub proof fn law_prune_is_idempotent(s: PoolState, tags: Seq<Seq<u8>>)
    requires
        pool_wf(s),
    ensures
        prune_spec(prune_spec(s, tags).0, tags).0 == prune_spec(s, tags).0,
        prune_spec(prune_spec(s, tags).0, tags).1 == (PruneView {
            promoted: Seq::empty(),
            failed: Seq::empty(),
            pruned: Seq::empty(),
        }),
{
    let once = prune_spec(s, tags).0;
    let c1 = consumed_after(s, tags);
    let doomed = hashes_of(rivals(s.ready, tags));
    let sw = sweep(s.ready, c1, doomed);
    let rest = bystanders(s.future, tags);
    let failed0 = hashes_of(rivals(s.future, tags)) + hashes_of(sw.cascaded);
    lemma_prune_wf(s, tags);
    lemma_sweep_parts(s.ready, c1, doomed);
    crate::invariants::lemma_sweep_exclusive(s.ready, c1, doomed);
    lemma_filter_subset(s.ready, hits(tags));
    lemma_filter_subset(s.future, misses(tags));
    crate::invariants::lemma_filter_distinct(s.future, misses(tags));
    crate::invariants::lemma_disjoint_sub(s.ready, sw.kept, s.future, rest);
    lemma_revive_origin(sw.kept, c1, rest, Seq::empty(), failed0);
    // No record of the pruned pool provides a pruned tag.
    assert forall|x: TxView| (sw.kept + rest).contains(x) implies !provides_any(x, tags) by {
        let j = choose|j: int| 0 <= j < (sw.kept + rest).len() && (sw.kept + rest)[j] == x;
        if j < sw.kept.len() {
            assert(sw.kept[j] == x);
            assert(s.ready.contains(sw.kept[j]));
            let o = choose|o: int| 0 <= o < s.ready.len() && s.ready[o] == x;
            if provides_any(x, tags) {
                assert(hits(tags)(s.ready[o]));
                assert(rivals(s.ready, tags).contains(s.ready[o]));
                lemma_hashes_contains(rivals(s.ready, tags), x.hash);
                let w = choose|w: int|
                    0 <= w < rivals(s.ready, tags).len() && rivals(s.ready, tags)[w] == x;
                assert(rivals(s.ready, tags)[w].hash == x.hash);
                assert(!doomed.contains(sw.kept[j].hash));
                assert(false);
            }
        } else {
            assert(rest[j - sw.kept.len()] == x);
            assert(misses(tags)(rest[j - sw.kept.len()]));
        }
    }
    assert forall|i: int| 0 <= i < once.ready.len() implies !hits(tags)(#[trigger] once.ready[i]) by {
        assert((sw.kept + rest).contains(once.ready[i]));
    }
    assert forall|i: int| 0 <= i < once.future.len() implies !hits(tags)(
        #[trigger] once.future[i],
    ) by {
        assert((sw.kept + rest).contains(once.future[i]));
    }
    assert forall|i: int| 0 <= i < once.future.len() implies misses(tags)(
        #[trigger] once.future[i],
    ) by {
        assert(!hits(tags)(once.future[i]));
    }
    lemma_filter_none(once.ready, hits(tags));
    lemma_filter_none(once.future, hits(tags));
    lemma_filter_all(once.future, misses(tags));
    // The tags are consumed already.
    lemma_absorb_holds(s.consumed, tags);
    lemma_absorb_holds(absorb(s.consumed, tags), all_provides(rivals(s.ready, tags)));
    assert forall|i: int| 0 <= i < tags.len() implies c1.contains(#[trigger] tags[i]) by {
        let mid = absorb(s.consumed, tags);
        assert(mid.contains(tags[i]));
        let j = choose|j: int| 0 <= j < mid.len() && mid[j] == tags[i];
        assert(c1.contains(mid[j]));
    }
    lemma_absorb_known(c1, tags);
    let none = Seq::<TxView>::empty();
    assert(all_provides(none) =~= Seq::<Seq<u8>>::empty());
    assert(consumed_after(once, tags) == c1);
    // Nothing is swept and nothing is revived.
    assert(hashes_of(none) =~= Seq::<TxHash>::empty());
    assert forall|i: int| 0 <= i < once.ready.len() implies !hashes_of(none).contains(
        (#[trigger] once.ready[i]).hash,
    ) by {}
    lemma_sweep_identity(once.ready, c1, hashes_of(none));
    lemma_pick(once.ready, c1, once.future);
    if pick(once.ready, c1, once.future) is Some {
        let i = pick(once.ready, c1, once.future).unwrap();
        assert(!all_met(once.ready, c1, once.future[i]));
    }
    assert(hashes_of(none) + hashes_of(none) =~= Seq::<TxHash>::empty());
}

/// The record that is evicted first is the lowest: every other record has
/// a higher priority, or with the same priority a later arrival, or with
/// both the same a greater hash.
pub proof fn law_eviction_takes_the_lowest(txs: Seq<TxView>, j: int)
    requires
        distinct(txs),
        0 <= j < txs.len(),
        j != crate::model::worst(txs),
    ensures
        0 <= crate::model::worst(txs) < txs.len(),
        crate::model::worse(txs[crate::model::worst(txs)], txs[j]),
    decreases txs.len(),
{
    crate::facts::lemma_worst(txs);
    if txs.len() > 1 {
        let rest = txs.drop_last();
        let last = txs.len() - 1;
        assert(distinct(rest)) by {
            assert forall|a: int, b: int| 0 <= a < b < rest.len() implies (#[trigger] rest[a]).hash
                != (#[trigger] rest[b]).hash by {
                assert(txs[a].hash != txs[b].hash);
            }
        }
        crate::facts::lemma_worst(rest);
        let prev = crate::model::worst(rest);
        assert(rest[prev] == txs[prev]);
        if j < last {
            assert(rest[j] == txs[j]);
            if j != prev {
                law_eviction_takes_the_lowest(rest, j);
            }
        } else {
            assert(txs[prev].hash != txs[last].hash);
        }
    }
}

/// A sweep sorts every ready record into what stays, what is doomed and
/// what lost a requirement.
proof fn lemma_sweep_covers(ready: Seq<TxView>, consumed: Seq<Seq<u8>>, doomed: Seq<TxHash>)
    ensures
        forall|i: int|
            0 <= i < ready.len() ==> {
                ||| sweep(ready, consumed, doomed).kept.contains(#[trigger] ready[i])
                ||| sweep(ready, consumed, doomed).roots.contains(ready[i])
                ||| sweep(ready, consumed, doomed).cascaded.contains(ready[i])
            },
        forall|i: int|
            0 <= i < sweep(ready, consumed, doomed).roots.len() ==> doomed.contains(
                (#[trigger] sweep(ready, consumed, doomed).roots[i]).hash,
            ),
    decreases ready.len(),
{
    if ready.len() > 0 {
        let rest = ready.drop_last();
        let before = sweep(rest, consumed, doomed);
        let sw = sweep(ready, consumed, doomed);
        lemma_sweep_covers(rest, consumed, doomed);
        assert forall|i: int| 0 <= i < ready.len() implies {
            ||| sw.kept.contains(#[trigger] ready[i])
            ||| sw.roots.contains(ready[i])
            ||| sw.cascaded.contains(ready[i])
        } by {
            if i < rest.len() {
                assert(rest[i] == ready[i]);
                if before.kept.contains(rest[i]) {
                    let k = choose|k: int| 0 <= k < before.kept.len() && before.kept[k] == rest[i];
                    assert(sw.kept[k] == ready[i]);
                } else if before.roots.contains(rest[i]) {
                    let k = choose|k: int| 0 <= k < before.roots.len() && before.roots[k] == rest[i];
                    assert(sw.roots[k] == ready[i]);
                } else {
                    let k = choose|k: int|
                        0 <= k < before.cascaded.len() && before.cascaded[k] == rest[i];
                    assert(sw.cascaded[k] == ready[i]);
                }
            } else {
                if doomed.contains(ready[i].hash) {
                    assert(sw.roots[sw.roots.len() - 1] == ready[i]);
                } else if all_met(before.kept, consumed, ready[i]) {
                    assert(sw.kept[sw.kept.len() - 1] == ready[i]);
                } else {
                    assert(sw.cascaded[sw.cascaded.len() - 1] == ready[i]);
                }
            }
        }
        assert forall|i: int| 0 <= i < sw.roots.len() implies doomed.contains(
            (#[trigger] sw.roots[i]).hash,
        ) by {
            if i < before.roots.len() {
                assert(sw.roots[i] == before.roots[i]);
            }
        }
    }
}

/// After the records named by `hashes` are removed with their dependents,
/// the pool holds no record with one of the hashes, every record that it
/// holds it held before, and every removed record is one that it held.
pub proof fn law_removed_records_are_gone(s: PoolState, hashes: Seq<TxHash>, hash: TxHash)
    requires
        pool_wf(s),
        hashes.contains(hash),
    ensures
        !has_hash(remove_subtree_spec(s, hashes).0.ready, hash),
        !has_hash(remove_subtree_spec(s, hashes).0.future, hash),
        subset(remove_subtree_spec(s, hashes).0.ready, s.ready),
        subset(remove_subtree_spec(s, hashes).0.future, s.future),
        subset(remove_subtree_spec(s, hashes).1, s.ready + s.future),
        remove_subtree_spec(s, hashes).0.ready.len() + remove_subtree_spec(
            s,
            hashes,
        ).0.future.len() + remove_subtree_spec(s, hashes).1.len() == s.ready.len()
            + s.future.len(),
{
    let after = remove_subtree_spec(s, hashes).0;
    let sw = sweep(s.ready, s.consumed, hashes);
    lemma_sweep_parts(s.ready, s.consumed, hashes);
    crate::facts::lemma_sweep_sizes(s.ready, s.consumed, hashes);
    lemma_filter_subset(s.future, is_unnamed(hashes));
    lemma_filter_subset(s.future, is_named(hashes));
    if has_hash(after.ready, hash) {
        let i = choose|i: int| 0 <= i < after.ready.len() && (#[trigger] after.ready[i]).hash == hash;
        assert(!hashes.contains(sw.kept[i].hash));
    }
    if has_hash(after.future, hash) {
        let i = choose|i: int|
            0 <= i < after.future.len() && (#[trigger] after.future[i]).hash == hash;
        assert(is_unnamed(hashes)(after.future[i]));
    }
    lemma_subset_join(s.ready, s.future, s.ready + s.future);
    lemma_subset_trans(sw.roots, s.ready, s.ready + s.future);
    lemma_subset_trans(sw.cascaded, s.ready, s.ready + s.future);
    lemma_subset_trans(named(s.future, hashes), s.future, s.ready + s.future);
    lemma_subset_join(sw.roots, sw.cascaded, s.ready + s.future);
    lemma_subset_join(sw.roots + sw.cascaded, named(s.future, hashes), s.ready + s.future);
    lemma_filter_partition(s.future, hashes);
}

/// The named and the unnamed records of a list are all its records.
proof fn lemma_filter_partition(txs: Seq<TxView>, hashes: Seq<TxHash>)
    ensures
        named(txs, hashes).len() + unnamed(txs, hashes).len() == txs.len(),
    decreases txs.len(),
{
    reveal(Seq::filter);
    if txs.len() > 0 {
        lemma_filter_partition(txs.drop_last(), hashes);
    }
}

/// After tags are pruned, no record of the pool provides one of them, and
/// every one of them counts as consumed.
pub proof fn law_pruned_tags_have_no_provider(s: PoolState, tags: Seq<Seq<u8>>)
    requires
        pool_wf(s),
    ensures
        forall|i: int|
            0 <= i < prune_spec(s, tags).0.ready.len() ==> !provides_any(
                #[trigger] prune_spec(s, tags).0.ready[i],
                tags,
            ),
        forall|i: int|
            0 <= i < prune_spec(s, tags).0.future.len() ==> !provides_any(
                #[trigger] prune_spec(s, tags).0.future[i],
                tags,
            ),
        forall|i: int|
            0 <= i < tags.len() ==> prune_spec(s, tags).0.consumed.contains(#[trigger] tags[i]),
        forall|i: int|
            0 <= i < s.consumed.len() ==> prune_spec(s, tags).0.consumed.contains(
                #[trigger] s.consumed[i],
            ),
{
    let once = prune_spec(s, tags).0;
    let c1 = consumed_after(s, tags);
    let doomed = hashes_of(rivals(s.ready, tags));
    let sw = sweep(s.ready, c1, doomed);
    let rest = bystanders(s.future, tags);
    let failed0 = hashes_of(rivals(s.future, tags)) + hashes_of(sw.cascaded);
    lemma_sweep_parts(s.ready, c1, doomed);
    crate::invariants::lemma_sweep_exclusive(s.ready, c1, doomed);
    lemma_filter_subset(s.ready, hits(tags));
    lemma_filter_subset(s.future, misses(tags));
    crate::invariants::lemma_filter_distinct(s.future, misses(tags));
    crate::invariants::lemma_disjoint_sub(s.ready, sw.kept, s.future, rest);
    lemma_revive_origin(sw.kept, c1, rest, Seq::empty(), failed0);
    assert forall|x: TxView| (sw.kept + rest).contains(x) implies !provides_any(x, tags) by {
        let j = choose|j: int| 0 <= j < (sw.kept + rest).len() && (sw.kept + rest)[j] == x;
        if j < sw.kept.len() {
            assert(sw.kept[j] == x);
            assert(s.ready.contains(sw.kept[j]));
            let o = choose|o: int| 0 <= o < s.ready.len() && s.ready[o] == x;
            if provides_any(x, tags) {
                assert(hits(tags)(s.ready[o]));
                assert(rivals(s.ready, tags).contains(s.ready[o]));
                lemma_hashes_contains(rivals(s.ready, tags), x.hash);
                let w = choose|w: int|
                    0 <= w < rivals(s.ready, tags).len() && rivals(s.ready, tags)[w] == x;
                assert(rivals(s.ready, tags)[w].hash == x.hash);
                assert(!doomed.contains(sw.kept[j].hash));
                assert(false);
            }
        } else {
            assert(rest[j - sw.kept.len()] == x);
            assert(misses(tags)(rest[j - sw.kept.len()]));
        }
    }
    assert forall|i: int| 0 <= i < once.ready.len() implies !provides_any(
        #[trigger] once.ready[i],
        tags,
    ) by {
        assert((sw.kept + rest).contains(once.ready[i]));
    }
    assert forall|i: int| 0 <= i < once.future.len() implies !provides_any(
        #[trigger] once.future[i],
        tags,
    ) by {
        assert((sw.kept + rest).contains(once.future[i]));
    }
    lemma_absorb_holds(s.consumed, tags);
    lemma_absorb_holds(absorb(s.consumed, tags), all_provides(rivals(s.ready, tags)));
    assert forall|i: int| 0 <= i < tags.len() implies c1.contains(#[trigger] tags[i]) by {
        let mid = absorb(s.consumed, tags);
        assert(mid.contains(tags[i]));
        let j = choose|j: int| 0 <= j < mid.len() && mid[j] == tags[i];
        assert(c1.contains(mid[j]));
    }
    assert forall|i: int| 0 <= i < s.consumed.len() implies c1.contains(
        #[trigger] s.consumed[i],
    ) by {
        let mid = absorb(s.consumed, tags);
        assert(mid.contains(s.consumed[i]));
        let j = choose|j: int| 0 <= j < mid.len() && mid[j] == s.consumed[i];
        assert(c1.contains(mid[j]));
    }
}

/// A hash that a record of a part of a list has, a record of the list has.
proof fn lemma_has_hash_subset(a: Seq<TxView>, b: Seq<TxView>, hash: TxHash)
    requires
        subset(a, b),
        has_hash(a, hash),
    ensures
        has_hash(b, hash),
{
    let i = choose|i: int| 0 <= i < a.len() && (#[trigger] a[i]).hash == hash;
    assert(b.contains(a[i]));
    let j = choose|j: int| 0 <= j < b.len() && b[j] == a[i];
    assert(b[j].hash == hash);
}

/// In a sweep of records with hashes that are apart, what stays, what is
/// doomed and what lost a requirement share no hash.
proof fn lemma_sweep_apart(ready: Seq<TxView>, consumed: Seq<Seq<u8>>, doomed: Seq<TxHash>)
    requires
        distinct(ready),
    ensures
        disjoint(sweep(ready, consumed, doomed).kept, sweep(ready, consumed, doomed).roots),
        disjoint(sweep(ready, consumed, doomed).kept, sweep(ready, consumed, doomed).cascaded),
    decreases ready.len(),
{
    if ready.len() > 0 {
        let rest = ready.drop_last();
        let before = sweep(rest, consumed, doomed);
        let sw = sweep(ready, consumed, doomed);
        let tx = ready.last();
        assert(distinct(rest)) by {
            assert forall|i: int, j: int| 0 <= i < j < rest.len() implies (#[trigger] rest[i]).hash
                != (#[trigger] rest[j]).hash by {
                assert(ready[i].hash != ready[j].hash);
            }
        }
        lemma_sweep_apart(rest, consumed, doomed);
        lemma_sweep_parts(rest, consumed, doomed);
        assert forall|x: TxView| rest.contains(x) implies x.hash != tx.hash by {
            let k = choose|k: int| 0 <= k < rest.len() && rest[k] == x;
            assert(ready[k].hash != ready[ready.len() - 1].hash);
        }
        assert forall|i: int, j: int|
            0 <= i < sw.kept.len() && 0 <= j < sw.roots.len() implies (#[trigger] sw.kept[i]).hash
            != (#[trigger] sw.roots[j]).hash by {
            if i < before.kept.len() && j < before.roots.len() {
                assert(before.kept[i].hash != before.roots[j].hash);
            } else if i < before.kept.len() {
                assert(rest.contains(before.kept[i]));
            } else {
                assert(rest.contains(before.roots[j]));
            }
        }
        assert forall|i: int, j: int|
            0 <= i < sw.kept.len() && 0 <= j < sw.cascaded.len() implies (
            #[trigger] sw.kept[i]).hash != (#[trigger] sw.cascaded[j]).hash by {
            if i < before.kept.len() && j < before.cascaded.len() {
                assert(before.kept[i].hash != before.cascaded[j].hash);
            } else if i < before.kept.len() {
                assert(rest.contains(before.kept[i]));
            } else {
                assert(rest.contains(before.cascaded[j]));
            }
        }
    }
}

/// The lists of an import agree with the pool: what was promoted is ready,
/// and what failed or was removed is in neither partition.
pub open spec fn tidy(
    ready: Seq<TxView>,
    future: Seq<TxView>,
    promoted: Seq<TxHash>,
    failed: Seq<TxHash>,
    removed: Seq<TxView>,
) -> bool {
    &&& forall|i: int| 0 <= i < promoted.len() ==> has_hash(ready, #[trigger] promoted[i])
    &&& forall|i: int|
        0 <= i < failed.len() ==> !has_hash(ready, #[trigger] failed[i]) && !has_hash(
            future,
            failed[i],
        )
    &&& forall|i: int|
        0 <= i < removed.len() ==> !has_hash(ready, (#[trigger] removed[i]).hash) && !has_hash(
            future,
            removed[i].hash,
        )
}

/// What a placement takes out of the ready partition is in neither
/// partition afterwards, and what was in neither stays out.
proof fn lemma_placed_tidy(
    ready: Seq<TxView>,
    consumed: Seq<Seq<u8>>,
    future: Seq<TxView>,
    i: int,
    guard: Option<TxHash>,
    promoted: Seq<TxHash>,
    failed: Seq<TxHash>,
    removed: Seq<TxView>,
)
    requires
        settled(ready, consumed, future),
        0 <= i < future.len(),
        tidy(ready, future, promoted, failed, removed),
        place(ready, consumed, future[i], guard) is Placed,
    ensures
        tidy(
            place(ready, consumed, future[i], guard)->ready,
            future.remove(i),
            without_lists(
                promoted,
                place(ready, consumed, future[i], guard)->usurped,
                place(ready, consumed, future[i], guard)->cascaded,
                future[i].hash,
            ),
            failed + hashes_of(place(ready, consumed, future[i], guard)->cascaded),
            removed + place(ready, consumed, future[i], guard)->usurped,
        ),
{
    let tx = future[i];
    let rest = future.remove(i);
    let next = place(ready, consumed, tx, guard)->ready;
    let usurped = place(ready, consumed, tx, guard)->usurped;
    let cascaded = place(ready, consumed, tx, guard)->cascaded;
    let rv = rivals(ready, tx.provides);
    let sw = usurp(ready, consumed, rv);
    crate::invariants::lemma_choice_out(ready, future, i);
    lemma_place(ready, consumed, tx, guard);
    crate::invariants::lemma_exclusive_distinct(ready);
    if rv.len() > 0 {
        lemma_sweep_parts(ready, consumed, hashes_of(rv));
        lemma_sweep_apart(ready, consumed, hashes_of(rv));
        lemma_sweep_covers(ready, consumed, hashes_of(rv));
    }
    let promoted2 = without_lists(promoted, usurped, cascaded, tx.hash);
    let failed2 = failed + hashes_of(cascaded);
    let removed2 = removed + usurped;
    // A hash that is in the next ready partition is the hash of what was
    // placed or of a record that stayed.
    assert forall|h: TxHash| has_hash(next, h) implies h == tx.hash || has_hash(sw.kept, h) by {
        let k = choose|k: int| 0 <= k < next.len() && (#[trigger] next[k]).hash == h;
        if k < sw.kept.len() {
            assert(sw.kept[k].hash == h);
        }
    }
    assert forall|h: TxHash| has_hash(sw.kept, h) implies has_hash(ready, h) by {
        lemma_has_hash_subset(sw.kept, ready, h);
    }
    assert forall|h: TxHash| has_hash(rest, h) implies has_hash(future, h) by {
        lemma_has_hash_subset(rest, future, h);
    }
    assert forall|k: int| 0 <= k < promoted2.len() implies has_hash(
        next,
        #[trigger] promoted2[k],
    ) by {
        let h = promoted2[k];
        if k == promoted2.len() - 1 {
            assert(next[next.len() - 1].hash == tx.hash);
        } else {
            let inner = without(promoted, usurped);
            let outer = without(inner, cascaded);
            assert(outer[k] == h);
            inner.lemma_filter_pred(crate::model::absent_from(cascaded), k);
            assert(!has_hash(cascaded, h));
            inner.lemma_filter_contains_rev(crate::model::absent_from(cascaded), h);
            let k1 = choose|k1: int| 0 <= k1 < inner.len() && inner[k1] == h;
            promoted.lemma_filter_pred(crate::model::absent_from(usurped), k1);
            assert(!has_hash(usurped, h));
            promoted.lemma_filter_contains_rev(crate::model::absent_from(usurped), h);
            let k0 = choose|k0: int| 0 <= k0 < promoted.len() && promoted[k0] == h;
            assert(has_hash(ready, promoted[k0]));
            let o = choose|o: int| 0 <= o < ready.len() && (#[trigger] ready[o]).hash == h;
            if rv.len() > 0 {
                if sw.roots.contains(ready[o]) {
                    let w = choose|w: int| 0 <= w < sw.roots.len() && sw.roots[w] == ready[o];
                    assert(sw.roots[w].hash == h);
                    assert(false);
                }
                if sw.cascaded.contains(ready[o]) {
                    let w = choose|w: int|
                        0 <= w < sw.cascaded.len() && sw.cascaded[w] == ready[o];
                    assert(sw.cascaded[w].hash == h);
                    assert(false);
                }
                assert(sw.kept.contains(ready[o]));
                let w = choose|w: int| 0 <= w < sw.kept.len() && sw.kept[w] == ready[o];
                assert(next[w].hash == h);
            } else {
                assert(next[o].hash == h);
            }
        }
    }
    assert forall|k: int| 0 <= k < failed2.len() implies !has_hash(next, #[trigger] failed2[k])
        && !has_hash(rest, failed2[k]) by {
        let h = failed2[k];
        if k < failed.len() {
            assert(failed[k] == h);
            assert(!has_hash(ready, h) && !has_hash(future, h));
            if h == tx.hash {
                assert(future[i].hash == h);
            }
        } else {
            let c = cascaded[k - failed.len()];
            assert(hashes_of(cascaded)[k - failed.len()] == c.hash);
            assert(ready.contains(c));
            let o = choose|o: int| 0 <= o < ready.len() && ready[o] == c;
            assert(ready[o].hash == h);
            if has_hash(sw.kept, h) {
                let w = choose|w: int| 0 <= w < sw.kept.len() && (#[trigger] sw.kept[w]).hash == h;
                assert(sw.kept[w].hash != sw.cascaded[k - failed.len()].hash);
            }
            if has_hash(future, h) {
                let w = choose|w: int| 0 <= w < future.len() && (#[trigger] future[w]).hash == h;
                assert(ready[o].hash != future[w].hash);
            }
        }
    }
    assert forall|k: int| 0 <= k < removed2.len() implies !has_hash(
        next,
        (#[trigger] removed2[k]).hash,
    ) && !has_hash(rest, removed2[k].hash) by {
        let h = removed2[k].hash;
        if k < removed.len() {
            assert(removed[k] == removed2[k]);
            assert(!has_hash(ready, removed[k].hash) && !has_hash(future, removed[k].hash));
            if h == tx.hash {
                assert(future[i].hash == h);
            }
        } else {
            let u = usurped[k - removed.len()];
            assert(ready.contains(u));
            let o = choose|o: int| 0 <= o < ready.len() && ready[o] == u;
            assert(ready[o].hash == h);
            if has_hash(sw.kept, h) {
                let w = choose|w: int| 0 <= w < sw.kept.len() && (#[trigger] sw.kept[w]).hash == h;
                assert(sw.kept[w].hash != sw.roots[k - removed.len()].hash);
            }
            if has_hash(future, h) {
                let w = choose|w: int| 0 <= w < future.len() && (#[trigger] future[w]).hash == h;
                assert(ready[o].hash != future[w].hash);
            }
        }
    }
}

/// A run of promotions keeps its lists in agreement with the pool.
proof fn lemma_promote_all_tidy(
    ready: Seq<TxView>,
    consumed: Seq<Seq<u8>>,
    future: Seq<TxView>,
    guard: Option<TxHash>,
    promoted: Seq<TxHash>,
    failed: Seq<TxHash>,
    removed: Seq<TxView>,
)
    requires
        settled(ready, consumed, future),
        tidy(ready, future, promoted, failed, removed),
    ensures
        ({
            let p = promote_all(ready, consumed, future, guard, promoted, failed, removed);
            tidy(p.ready, p.future, p.promoted, p.failed, p.removed)
        }),
    decreases future.len(),
{
    let choice = pick(ready, consumed, future);
    lemma_pick(ready, consumed, future);
    if choice is Some {
        let i = choice.unwrap();
        let tx = future[i];
        let rest = future.remove(i);
        crate::invariants::lemma_choice_out(ready, future, i);
        lemma_place(ready, consumed, tx, guard);
        crate::invariants::lemma_place_settled(ready, consumed, rest, tx, guard);
        match place(ready, consumed, tx, guard) {
            Placement::Placed { ready: next, usurped, cascaded } => {
                lemma_placed_tidy(ready, consumed, future, i, guard, promoted, failed, removed);
                lemma_promote_all_tidy(
                    next,
                    consumed,
                    rest,
                    guard,
                    without_lists(promoted, usurped, cascaded, tx.hash),
                    failed + hashes_of(cascaded),
                    removed + usurped,
                );
            },
            _ => {
                let failed2 = failed.push(tx.hash);
                assert forall|h: TxHash| has_hash(rest, h) implies has_hash(future, h) by {
                    lemma_has_hash_subset(rest, future, h);
                }
                assert forall|k: int| 0 <= k < failed2.len() implies !has_hash(
                    ready,
                    #[trigger] failed2[k],
                ) && !has_hash(rest, failed2[k]) by {
                    if k < failed.len() {
                        assert(failed[k] == failed2[k]);
                    }
                }
                lemma_promote_all_tidy(ready, consumed, rest, guard, promoted, failed2, removed);
            },
        }
    }
}

/// The result of an import agrees with the pool after it: the imported
/// transaction is in the partition that the result names; every promoted
/// transaction is ready; every failed and every removed one is gone from
/// both partitions; and every removed one was ready before.
pub proof fn law_import_result_matches_the_pool(s: PoolState, tx: TxView)
    requires
        pool_wf(s),
    ensures
        match import_spec(s, tx).1 {
            Ok(ImportedView::Ready { hash, promoted, failed, removed }) => {
                &&& hash == tx.hash
                &&& has_hash(import_spec(s, tx).0.ready, hash)
                &&& tidy(
                    import_spec(s, tx).0.ready,
                    import_spec(s, tx).0.future,
                    promoted,
                    failed,
                    removed,
                )
            },
            Ok(ImportedView::Future { hash }) => {
                &&& hash == tx.hash
                &&& import_spec(s, tx).0.future == s.future.push(tx)
                &&& import_spec(s, tx).0.ready == s.ready
            },
            Err(_) => import_spec(s, tx).0 == s,
        },
{
    if has_hash(s.ready, tx.hash) || has_hash(s.future, tx.hash) {
    } else if !all_met(s.ready, s.consumed, tx) {
    } else {
        let joined = s.future.push(tx);
        crate::invariants::lemma_import_ready(s.ready, s.consumed, s.future, tx);
        match place(s.ready, s.consumed, tx, None) {
            Placement::Placed { ready: next, usurped, cascaded } => {
                // Placing the transaction is placing a future record of a
                // pool that holds it as its last future record.
                let at = joined.len() - 1;
                assert(joined[at] == tx);
                assert(joined.remove(at) =~= s.future);
                assert(crate::model::distinct(joined)) by {
                    assert forall|i: int, j: int| 0 <= i < j < joined.len() implies (
                    #[trigger] joined[i]).hash != (#[trigger] joined[j]).hash by {
                        if j < s.future.len() {
                            assert(s.future[i].hash != s.future[j].hash);
                        } else {
                            assert(s.future[i].hash != tx.hash);
                        }
                    }
                }
                assert(disjoint(s.ready, joined)) by {
                    assert forall|i: int, j: int|
                        0 <= i < s.ready.len() && 0 <= j < joined.len() implies (
                    #[trigger] s.ready[i]).hash != (#[trigger] joined[j]).hash by {
                        if j < s.future.len() {
                            assert(s.ready[i].hash != s.future[j].hash);
                        } else {
                            assert(s.ready[i].hash != tx.hash);
                        }
                    }
                }
                lemma_placed_tidy(
                    s.ready,
                    s.consumed,
                    joined,
                    at,
                    None,
                    Seq::empty(),
                    Seq::empty(),
                    Seq::empty(),
                );
                let promoted0 = without_lists(Seq::empty(), usurped, cascaded, tx.hash);
                let failed0 = Seq::<TxHash>::empty() + hashes_of(cascaded);
                let removed0 = Seq::<TxView>::empty() + usurped;
                assert(failed0 =~= hashes_of(cascaded));
                assert(removed0 =~= usurped);
                assert(tidy(next, s.future, promoted0, failed0, removed0));
                assert(tidy(next, s.future, Seq::empty(), hashes_of(cascaded), usurped));
                crate::invariants::lemma_place_settled(s.ready, s.consumed, s.future, tx, None);
                lemma_promote_all_tidy(
                    next,
                    s.consumed,
                    s.future,
                    Some(tx.hash),
                    Seq::empty(),
                    hashes_of(cascaded),
                    usurped,
                );
            },
            _ => {},
        }
    }
}

} // verus!
