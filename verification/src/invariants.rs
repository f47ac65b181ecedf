//! The invariant of the pool holds after every operation.

use vstd::prelude::*;
use crate::facts::{lemma_hashes_contains, lemma_pick, lemma_push_drop_last};
use crate::model::{
    all_met, bystanders, compatible, consumed_after, disjoint, distinct, enforce_limits_spec,
    exclusive, has_hash, hashes_of, hits, import_ready, import_spec, ordered, pick, place, pool_wf,
    promote_all, provided_by, provides_any, prune_spec, remove_subtree_spec, revive, rivals, sweep,
    tag_met, trim_future, trim_ready, unnamed, usurp, waiting, worst, ImportedView, LimitView,
    Placement, PoolState,
};
use crate::types::{TxHash, TxView};

verus! {

/// Every record of `a` is a record of `b`.
pub open spec fn subset(a: Seq<TxView>, b: Seq<TxView>) -> bool {
    forall|i: int| 0 <= i < a.len() ==> b.contains(#[trigger] a[i])
}

/// A list is part of itself.
pub proof fn lemma_subset_self(a: Seq<TxView>)
    ensures
        subset(a, a),
{
}

/// Being part of a list carries over to what the list is part of.
pub proof fn lemma_subset_trans(a: Seq<TxView>, b: Seq<TxView>, c: Seq<TxView>)
    requires
        subset(a, b),
        subset(b, c),
    ensures
        subset(a, c),
{
    assert forall|i: int| 0 <= i < a.len() implies c.contains(#[trigger] a[i]) by {
        assert(b.contains(a[i]));
        let j = choose|j: int| 0 <= j < b.len() && b[j] == a[i];
        assert(c.contains(b[j]));
    }
}

/// What is part of a list without its last record is part of the list.
pub proof fn lemma_subset_drop_last(a: Seq<TxView>, b: Seq<TxView>)
    requires
        b.len() > 0,
        subset(a, b.drop_last()),
    ensures
        subset(a, b),
{
    assert forall|i: int| 0 <= i < a.len() implies b.contains(#[trigger] a[i]) by {
        assert(b.drop_last().contains(a[i]));
        let j = choose|j: int| 0 <= j < b.drop_last().len() && b.drop_last()[j] == a[i];
        assert(b[j] == a[i]);
    }
}

/// A part of a list stays one when a record of the list is appended to it.
pub proof fn lemma_subset_push(a: Seq<TxView>, b: Seq<TxView>, x: TxView)
    requires
        subset(a, b),
        b.contains(x),
    ensures
        subset(a.push(x), b),
{
    assert forall|i: int| 0 <= i < a.push(x).len() implies b.contains(#[trigger] a.push(x)[i]) by {
        if i < a.len() {
            assert(a.push(x)[i] == a[i]);
        }
    }
}

/// A list without one record is part of the list.
pub proof fn lemma_subset_remove(s: Seq<TxView>, i: int)
    requires
        0 <= i < s.len(),
    ensures
        subset(s.remove(i), s),
{
    assert forall|k: int| 0 <= k < s.remove(i).len() implies s.contains(#[trigger] s.remove(i)[k]) by {
        if k < i {
            assert(s[k] == s.remove(i)[k]);
        } else {
            assert(s[k + 1] == s.remove(i)[k]);
        }
    }
}

/// The filtered records are records of the list, and each passes the test.
pub proof fn lemma_filter_subset(s: Seq<TxView>, p: spec_fn(TxView) -> bool)
    ensures
        subset(s.filter(p), s),
        forall|i: int| 0 <= i < s.filter(p).len() ==> p(#[trigger] s.filter(p)[i]),
        forall|i: int| 0 <= i < s.len() && p(s[i]) ==> s.filter(p).contains(#[trigger] s[i]),
    decreases s.len(),
{
    reveal(Seq::filter);
    if s.len() > 0 {
        let rest = s.drop_last();
        lemma_filter_subset(rest, p);
        lemma_subset_drop_last(rest.filter(p), s);
        if p(s.last()) {
            assert(s.contains(s.last())) by {
                assert(s[s.len() - 1] == s.last());
            }
            lemma_subset_push(rest.filter(p), s, s.last());
        }
        assert forall|i: int| 0 <= i < s.filter(p).len() implies p(#[trigger] s.filter(p)[i]) by {
            if i < rest.filter(p).len() {
                assert(s.filter(p)[i] == rest.filter(p)[i]);
            }
        }
        assert forall|i: int| 0 <= i < s.len() && p(s[i]) implies s.filter(p).contains(
            #[trigger] s[i],
        ) by {
            if i < rest.len() {
                assert(rest[i] == s[i]);
                assert(rest.filter(p).contains(rest[i]));
                let j = choose|j: int| 0 <= j < rest.filter(p).len() && rest.filter(p)[j] == rest[i];
                assert(s.filter(p)[j] == s[i]);
            } else {
                assert(s.filter(p)[s.filter(p).len() - 1] == s[i]);
            }
        }
    }
}

/// Filtering keeps hashes apart.
pub proof fn lemma_filter_distinct(s: Seq<TxView>, p: spec_fn(TxView) -> bool)
    requires
        distinct(s),
    ensures
        distinct(s.filter(p)),
    decreases s.len(),
{
    reveal(Seq::filter);
    if s.len() > 0 {
        let rest = s.drop_last();
        assert(distinct(rest)) by {
            assert forall|i: int, j: int| 0 <= i < j < rest.len() implies (#[trigger] rest[i]).hash
                != (#[trigger] rest[j]).hash by {
                assert(s[i].hash != s[j].hash);
            }
        }
        lemma_filter_distinct(rest, p);
        lemma_filter_subset(rest, p);
        if p(s.last()) {
            let f = rest.filter(p);
            assert forall|i: int, j: int| 0 <= i < j < s.filter(p).len() implies (
            #[trigger] s.filter(p)[i]).hash != (#[trigger] s.filter(p)[j]).hash by {
                if j < f.len() {
                    assert(f[i].hash != f[j].hash);
                } else {
                    assert(rest.contains(f[i]));
                    let k = choose|k: int| 0 <= k < rest.len() && rest[k] == f[i];
                    assert(s[k].hash != s[s.len() - 1].hash);
                }
            }
        }
    }
}

/// Removing a record keeps hashes apart, and the hash of the record is gone.
pub proof fn lemma_remove_distinct(s: Seq<TxView>, i: int)
    requires
        distinct(s),
        0 <= i < s.len(),
    ensures
        distinct(s.remove(i)),
        !has_hash(s.remove(i), s[i].hash),
{
    let r = s.remove(i);
    assert forall|a: int, b: int| 0 <= a < b < r.len() implies (#[trigger] r[a]).hash != (
    #[trigger] r[b]).hash by {
        let a2 = if a < i { a } else { a + 1 };
        let b2 = if b < i { b } else { b + 1 };
        assert(r[a] == s[a2]);
        assert(r[b] == s[b2]);
        assert(s[a2].hash != s[b2].hash);
    }
    if has_hash(r, s[i].hash) {
        let k = choose|k: int| 0 <= k < r.len() && (#[trigger] r[k]).hash == s[i].hash;
        let k2 = if k < i { k } else { k + 1 };
        assert(r[k] == s[k2]);
        if k2 < i {
            assert(s[k2].hash != s[i].hash);
        } else {
            assert(s[i].hash != s[k2].hash);
        }
    }
}

/// Parts of two lists that share no hash share no hash.
pub proof fn lemma_disjoint_sub(a: Seq<TxView>, a2: Seq<TxView>, b: Seq<TxView>, b2: Seq<TxView>)
    requires
        disjoint(a, b),
        subset(a2, a),
        subset(b2, b),
    ensures
        disjoint(a2, b2),
{
    assert forall|i: int, j: int| 0 <= i < a2.len() && 0 <= j < b2.len() implies (
    #[trigger] a2[i]).hash != (#[trigger] b2[j]).hash by {
        assert(a.contains(a2[i]));
        assert(b.contains(b2[j]));
        let x = choose|x: int| 0 <= x < a.len() && a[x] == a2[i];
        let y = choose|y: int| 0 <= y < b.len() && b[y] == b2[j];
        assert(a[x].hash != b[y].hash);
    }
}

/// A list shares no hash with another if no record of it has a hash of the other.
pub proof fn lemma_disjoint_push(a: Seq<TxView>, b: Seq<TxView>, x: TxView)
    requires
        disjoint(a, b),
        !has_hash(b, x.hash),
    ensures
        disjoint(a.push(x), b),
{
    assert forall|i: int, j: int| 0 <= i < a.push(x).len() && 0 <= j < b.len() implies (
    #[trigger] a.push(x)[i]).hash != (#[trigger] b[j]).hash by {
        if i < a.len() {
            assert(a[i].hash != b[j].hash);
        } else {
            assert(b[j].hash != x.hash);
        }
    }
}

/// What a part of a list provides, the list provides.
pub proof fn lemma_provided_subset(a: Seq<TxView>, b: Seq<TxView>, tag: Seq<u8>)
    requires
        subset(a, b),
        provided_by(a, tag),
    ensures
        provided_by(b, tag),
{
    let i = choose|i: int| 0 <= i < a.len() && (#[trigger] a[i]).provides.contains(tag);
    assert(b.contains(a[i]));
    let j = choose|j: int| 0 <= j < b.len() && b[j] == a[i];
    assert(b[j].provides.contains(tag));
}

/// Requirements that a part of a list meets, the list meets.
pub proof fn lemma_met_subset(a: Seq<TxView>, b: Seq<TxView>, consumed: Seq<Seq<u8>>, tx: TxView)
    requires
        subset(a, b),
        all_met(a, consumed, tx),
    ensures
        all_met(b, consumed, tx),
{
    assert forall|k: int| 0 <= k < tx.requires.len() implies tag_met(
        b,
        consumed,
        #[trigger] tx.requires[k],
    ) by {
        assert(tag_met(a, consumed, tx.requires[k]));
        if provided_by(a, tx.requires[k]) {
            lemma_provided_subset(a, b, tx.requires[k]);
        }
    }
}

/// Future records that cannot be ready with a list cannot be ready with a
/// part of it, and neither can a part of them.
pub proof fn lemma_waiting_sub(
    ready: Seq<TxView>,
    ready2: Seq<TxView>,
    consumed: Seq<Seq<u8>>,
    future: Seq<TxView>,
    future2: Seq<TxView>,
)
    requires
        waiting(ready, consumed, future),
        subset(ready2, ready),
        subset(future2, future),
    ensures
        waiting(ready2, consumed, future2),
{
    assert forall|k: int| 0 <= k < future2.len() implies !all_met(
        ready2,
        consumed,
        #[trigger] future2[k],
    ) by {
        assert(future.contains(future2[k]));
        let j = choose|j: int| 0 <= j < future.len() && future[j] == future2[k];
        assert(!all_met(ready, consumed, future[j]));
        if all_met(ready2, consumed, future2[k]) {
            lemma_met_subset(ready2, ready, consumed, future2[k]);
        }
    }
}

/// A list whose hashes and provided tags are apart stays so without its last record.
pub proof fn lemma_exclusive_drop_last(s: Seq<TxView>)
    requires
        exclusive(s),
        s.len() > 0,
    ensures
        exclusive(s.drop_last()),
{
    let rest = s.drop_last();
    assert forall|i: int, j: int| 0 <= i < j < rest.len() implies compatible(
        #[trigger] rest[i],
        #[trigger] rest[j],
    ) by {
        assert(compatible(s[i], s[j]));
    }
}

/// A record that can be ready with every record of a list can be appended.
pub proof fn lemma_exclusive_push(s: Seq<TxView>, x: TxView)
    requires
        exclusive(s),
        forall|i: int| 0 <= i < s.len() ==> compatible(#[trigger] s[i], x),
    ensures
        exclusive(s.push(x)),
{
    assert forall|i: int, j: int| 0 <= i < j < s.push(x).len() implies compatible(
        #[trigger] s.push(x)[i],
        #[trigger] s.push(x)[j],
    ) by {
        if j < s.len() {
            assert(compatible(s[i], s[j]));
        } else {
            assert(compatible(s[i], x));
        }
    }
}

/// Records that can be ready together have hashes that are apart.
pub proof fn lemma_exclusive_distinct(s: Seq<TxView>)
    requires
        exclusive(s),
    ensures
        distinct(s),
{
    assert forall|i: int, j: int| 0 <= i < j < s.len() implies (#[trigger] s[i]).hash != (
    #[trigger] s[j]).hash by {
        assert(compatible(s[i], s[j]));
    }
}

/// A list in dependency order stays so when a record is appended whose
/// requirements the list meets.
pub proof fn lemma_ordered_push(s: Seq<TxView>, consumed: Seq<Seq<u8>>, x: TxView)
    requires
        ordered(s, consumed),
        all_met(s, consumed, x),
    ensures
        ordered(s.push(x), consumed),
{
    let t = s.push(x);
    assert forall|k: int| 0 <= k < t.len() implies all_met(t.take(k), consumed, #[trigger] t[k]) by {
        if k < s.len() {
            assert(t.take(k) =~= s.take(k));
            assert(all_met(s.take(k), consumed, s[k]));
        } else {
            assert(t.take(k) =~= s);
        }
    }
}

/// What a sweep leaves and takes are ready records; what it leaves is in
/// dependency order and names no doomed hash.
pub proof fn lemma_sweep_parts(ready: Seq<TxView>, consumed: Seq<Seq<u8>>, doomed: Seq<TxHash>)
    ensures
        subset(sweep(ready, consumed, doomed).kept, ready),
        subset(sweep(ready, consumed, doomed).roots, ready),
        subset(sweep(ready, consumed, doomed).cascaded, ready),
        ordered(sweep(ready, consumed, doomed).kept, consumed),
        forall|i: int|
            0 <= i < sweep(ready, consumed, doomed).kept.len() ==> !doomed.contains(
                (#[trigger] sweep(ready, consumed, doomed).kept[i]).hash,
            ),
    decreases ready.len(),
{
    if ready.len() > 0 {
        let rest = ready.drop_last();
        let before = sweep(rest, consumed, doomed);
        let tx = ready.last();
        lemma_sweep_parts(rest, consumed, doomed);
        lemma_subset_drop_last(before.kept, ready);
        lemma_subset_drop_last(before.roots, ready);
        lemma_subset_drop_last(before.cascaded, ready);
        assert(ready.contains(tx)) by {
            assert(ready[ready.len() - 1] == tx);
        }
        lemma_subset_push(before.kept, ready, tx);
        lemma_subset_push(before.roots, ready, tx);
        lemma_subset_push(before.cascaded, ready, tx);
        let sw = sweep(ready, consumed, doomed);
        if !doomed.contains(tx.hash) && all_met(before.kept, consumed, tx) {
            lemma_ordered_push(before.kept, consumed, tx);
            assert forall|i: int| 0 <= i < sw.kept.len() implies !doomed.contains(
                (#[trigger] sw.kept[i]).hash,
            ) by {
                if i < before.kept.len() {
                    assert(sw.kept[i] == before.kept[i]);
                }
            }
        }
    }
}

/// A sweep of records that can be ready together leaves such records.
pub proof fn lemma_sweep_exclusive(ready: Seq<TxView>, consumed: Seq<Seq<u8>>, doomed: Seq<TxHash>)
    requires
        exclusive(ready),
    ensures
        exclusive(sweep(ready, consumed, doomed).kept),
    decreases ready.len(),
{
    if ready.len() > 0 {
        let rest = ready.drop_last();
        let before = sweep(rest, consumed, doomed);
        let tx = ready.last();
        lemma_exclusive_drop_last(ready);
        lemma_sweep_exclusive(rest, consumed, doomed);
        lemma_sweep_parts(rest, consumed, doomed);
        if !doomed.contains(tx.hash) && all_met(before.kept, consumed, tx) {
            assert forall|i: int| 0 <= i < before.kept.len() implies compatible(
                #[trigger] before.kept[i],
                tx,
            ) by {
                assert(rest.contains(before.kept[i]));
                let j = choose|j: int| 0 <= j < rest.len() && rest[j] == before.kept[i];
                assert(compatible(ready[j], ready[ready.len() - 1]));
            }
            lemma_exclusive_push(before.kept, tx);
        }
    }
}

/// The three properties of the ready partition and its relation to the
/// future partition that promotions keep.
pub open spec fn settled(ready: Seq<TxView>, consumed: Seq<Seq<u8>>, future: Seq<TxView>) -> bool {
    &&& exclusive(ready)
    &&& ordered(ready, consumed)
    &&& distinct(future)
    &&& disjoint(ready, future)
}

/// A placement keeps the ready partition well-formed and takes only ready
/// records out of it.
pub proof fn lemma_place(
    ready: Seq<TxView>,
    consumed: Seq<Seq<u8>>,
    tx: TxView,
    guard: Option<TxHash>,
)
    requires
        exclusive(ready),
        ordered(ready, consumed),
        !has_hash(ready, tx.hash),
    ensures
        match place(ready, consumed, tx, guard) {
            Placement::Placed { ready: next, usurped, cascaded } => {
                &&& exclusive(next)
                &&& ordered(next, consumed)
                &&& next.len() > 0
                &&& next.last() == tx
                &&& subset(next.drop_last(), ready)
                &&& subset(usurped, ready)
                &&& subset(cascaded, ready)
                &&& guard is Some ==> has_hash(next, guard.unwrap())
            },
            _ => true,
        },
{
    let rv = rivals(ready, tx.provides);
    let sw = usurp(ready, consumed, rv);
    if place(ready, consumed, tx, guard) is Placed {
        lemma_filter_subset(ready, hits(tx.provides));
        if rv.len() > 0 {
            lemma_sweep_parts(ready, consumed, hashes_of(rv));
            lemma_sweep_exclusive(ready, consumed, hashes_of(rv));
        } else {
            lemma_subset_self(ready);
        }
        assert forall|i: int| 0 <= i < sw.kept.len() implies compatible(#[trigger] sw.kept[i], tx) by {
            let r = sw.kept[i];
            assert(ready.contains(r));
            let j = choose|j: int| 0 <= j < ready.len() && ready[j] == r;
            assert(ready[j].hash != tx.hash);
            if provides_any(r, tx.provides) {
                assert(hits(tx.provides)(ready[j]));
                assert(rv.contains(ready[j]));
                let k = choose|k: int| 0 <= k < rv.len() && rv[k] == r;
                assert(rv[k].hash == r.hash);
                lemma_hashes_contains(rv, r.hash);
                assert(false);
            }
        }
        lemma_exclusive_push(sw.kept, tx);
        lemma_ordered_push(sw.kept, consumed, tx);
        lemma_push_drop_last(sw.kept, tx);
        if guard is Some {
            let g = guard.unwrap();
            let i = choose|i: int| 0 <= i < sw.kept.len() && (#[trigger] sw.kept[i]).hash == g;
            assert(sw.kept.push(tx)[i].hash == g);
        }
    }
}

/// A placement keeps the two partitions apart.
pub proof fn lemma_place_settled(
    ready: Seq<TxView>,
    consumed: Seq<Seq<u8>>,
    future: Seq<TxView>,
    tx: TxView,
    guard: Option<TxHash>,
)
    requires
        exclusive(ready),
        ordered(ready, consumed),
        distinct(future),
        disjoint(ready, future),
        !has_hash(ready, tx.hash),
        !has_hash(future, tx.hash),
    ensures
        place(ready, consumed, tx, guard) is Placed ==> settled(
            place(ready, consumed, tx, guard)->ready,
            consumed,
            future,
        ),
{
    lemma_place(ready, consumed, tx, guard);
    if place(ready, consumed, tx, guard) is Placed {
        let next = place(ready, consumed, tx, guard)->ready;
        lemma_subset_self(future);
        lemma_disjoint_sub(ready, next.drop_last(), future, future);
        lemma_disjoint_push(next.drop_last(), future, tx);
        assert(next.drop_last().push(tx) =~= next);
    }
}

/// The state after a choice is taken out of the future partition.
pub proof fn lemma_choice_out(ready: Seq<TxView>, future: Seq<TxView>, i: int)
    requires
        distinct(future),
        disjoint(ready, future),
        0 <= i < future.len(),
    ensures
        distinct(future.remove(i)),
        disjoint(ready, future.remove(i)),
        !has_hash(ready, future[i].hash),
        !has_hash(future.remove(i), future[i].hash),
        subset(future.remove(i), future),
{
    lemma_remove_distinct(future, i);
    lemma_subset_remove(future, i);
    lemma_subset_self(ready);
    lemma_disjoint_sub(ready, ready, future, future.remove(i));
    if has_hash(ready, future[i].hash) {
        let k = choose|k: int| 0 <= k < ready.len() && (#[trigger] ready[k]).hash == future[i].hash;
        assert(ready[k].hash != future[i].hash);
    }
}

/// A run of promotions keeps the pool well-formed and leaves no future
/// record that could be ready.
pub proof fn lemma_promote_all(
    ready: Seq<TxView>,
    consumed: Seq<Seq<u8>>,
    future: Seq<TxView>,
    guard: Option<TxHash>,
    promoted: Seq<TxHash>,
    failed: Seq<TxHash>,
    removed: Seq<TxView>,
)
    requires
        settled(ready, consumed, future),
        guard is Some ==> has_hash(ready, guard.unwrap()),
    ensures
        ({
            let p = promote_all(ready, consumed, future, guard, promoted, failed, removed);
            &&& settled(p.ready, consumed, p.future)
            &&& waiting(p.ready, consumed, p.future)
            &&& subset(p.future, future)
            &&& guard is Some ==> has_hash(p.ready, guard.unwrap())
        }),
    decreases future.len(),
{
    let choice = pick(ready, consumed, future);
    lemma_pick(ready, consumed, future);
    if choice is Some {
        let i = choice.unwrap();
        let tx = future[i];
        let rest = future.remove(i);
        lemma_choice_out(ready, future, i);
        lemma_place(ready, consumed, tx, guard);
        lemma_place_settled(ready, consumed, rest, tx, guard);
        match place(ready, consumed, tx, guard) {
            Placement::Placed { ready: next, usurped, cascaded } => {
                let more = without_lists(promoted, usurped, cascaded, tx.hash);
                lemma_promote_all(
                    next,
                    consumed,
                    rest,
                    guard,
                    more,
                    failed + hashes_of(cascaded),
                    removed + usurped,
                );
                let p = promote_all(
                    next,
                    consumed,
                    rest,
                    guard,
                    more,
                    failed + hashes_of(cascaded),
                    removed + usurped,
                );
                lemma_subset_trans(p.future, rest, future);
            },
            _ => {
                lemma_promote_all(
                    ready,
                    consumed,
                    rest,
                    guard,
                    promoted,
                    failed.push(tx.hash),
                    removed,
                );
                let p = promote_all(
                    ready,
                    consumed,
                    rest,
                    guard,
                    promoted,
                    failed.push(tx.hash),
                    removed,
                );
                lemma_subset_trans(p.future, rest, future);
            },
        }
    } else {
        lemma_subset_self(future);
    }
}

/// The promoted hashes after a placement.
pub open spec fn without_lists(
    promoted: Seq<TxHash>,
    usurped: Seq<TxView>,
    cascaded: Seq<TxView>,
    hash: TxHash,
) -> Seq<TxHash> {
    crate::model::without(crate::model::without(promoted, usurped), cascaded).push(hash)
}

/// Making a record ready keeps the pool well-formed.
pub proof fn lemma_import_ready(
    ready: Seq<TxView>,
    consumed: Seq<Seq<u8>>,
    future: Seq<TxView>,
    tx: TxView,
)
    requires
        settled(ready, consumed, future),
        !has_hash(ready, tx.hash),
        !has_hash(future, tx.hash),
    ensures
        match import_ready(ready, consumed, future, tx) {
            Ok(p) => {
                &&& settled(p.ready, consumed, p.future)
                &&& waiting(p.ready, consumed, p.future)
                &&& subset(p.future, future)
                &&& has_hash(p.ready, tx.hash)
            },
            Err(_) => true,
        },
{
    lemma_place(ready, consumed, tx, None);
    lemma_place_settled(ready, consumed, future, tx, None);
    match place(ready, consumed, tx, None) {
        Placement::Placed { ready: next, usurped, cascaded } => {
            assert(has_hash(next, tx.hash)) by {
                assert(next[next.len() - 1].hash == tx.hash);
            }
            lemma_promote_all(
                next,
                consumed,
                future,
                Some(tx.hash),
                Seq::empty(),
                hashes_of(cascaded),
                usurped,
            );
        },
        _ => {},
    }
}

/// An import keeps the invariant.
pub proof fn lemma_import_wf(s: PoolState, tx: TxView)
    requires
        pool_wf(s),
    ensures
        pool_wf(import_spec(s, tx).0),
{
    if has_hash(s.ready, tx.hash) || has_hash(s.future, tx.hash) {
    } else if !all_met(s.ready, s.consumed, tx) {
        if !s.reject_future {
            let f = s.future.push(tx);
            assert forall|i: int, j: int| 0 <= i < j < f.len() implies (#[trigger] f[i]).hash != (
            #[trigger] f[j]).hash by {
                if j < s.future.len() {
                    assert(s.future[i].hash != s.future[j].hash);
                } else {
                    assert(s.future[i].hash != tx.hash);
                }
            }
            assert forall|i: int, j: int| 0 <= i < s.ready.len() && 0 <= j < f.len() implies (
            #[trigger] s.ready[i]).hash != (#[trigger] f[j]).hash by {
                if j < s.future.len() {
                    assert(s.ready[i].hash != s.future[j].hash);
                } else {
                    assert(s.ready[i].hash != tx.hash);
                }
            }
            assert forall|k: int| 0 <= k < f.len() implies !all_met(
                s.ready,
                s.consumed,
                #[trigger] f[k],
            ) by {
                if k < s.future.len() {
                    assert(f[k] == s.future[k]);
                }
            }
        }
    } else {
        lemma_import_ready(s.ready, s.consumed, s.future, tx);
    }
}

/// Removing records with their dependents keeps the invariant.
pub proof fn lemma_remove_subtree_wf(s: PoolState, hashes: Seq<TxHash>)
    requires
        pool_wf(s),
    ensures
        pool_wf(remove_subtree_spec(s, hashes).0),
{
    let sw = sweep(s.ready, s.consumed, hashes);
    let rest = unnamed(s.future, hashes);
    lemma_sweep_parts(s.ready, s.consumed, hashes);
    lemma_sweep_exclusive(s.ready, s.consumed, hashes);
    lemma_filter_subset(s.future, crate::model::is_unnamed(hashes));
    lemma_filter_distinct(s.future, crate::model::is_unnamed(hashes));
    lemma_disjoint_sub(s.ready, sw.kept, s.future, rest);
    lemma_waiting_sub(s.ready, sw.kept, s.consumed, s.future, rest);
}

/// Evicting ready records keeps the pool well-formed.
pub proof fn lemma_trim_ready(
    ready: Seq<TxView>,
    consumed: Seq<Seq<u8>>,
    future: Seq<TxView>,
    limit: LimitView,
    removed: Seq<TxView>,
)
    requires
        settled(ready, consumed, future),
        waiting(ready, consumed, future),
    ensures
        settled(trim_ready(ready, consumed, limit, removed).0, consumed, future),
        waiting(trim_ready(ready, consumed, limit, removed).0, consumed, future),
    decreases ready.len(),
{
    if ready.len() > 0 && crate::model::exceeded(
        limit,
        ready.len() as int,
        crate::model::sum_bytes(ready),
    ) {
        let doomed = seq![ready[worst(ready)].hash];
        let sw = sweep(ready, consumed, doomed);
        if sw.kept.len() < ready.len() {
            lemma_sweep_parts(ready, consumed, doomed);
            lemma_sweep_exclusive(ready, consumed, doomed);
            lemma_subset_self(future);
            lemma_disjoint_sub(ready, sw.kept, future, future);
            lemma_waiting_sub(ready, sw.kept, consumed, future, future);
            lemma_trim_ready(sw.kept, consumed, future, limit, removed + sw.roots + sw.cascaded);
        }
    }
}

/// Evicting future records keeps the pool well-formed.
pub proof fn lemma_trim_future(
    ready: Seq<TxView>,
    consumed: Seq<Seq<u8>>,
    future: Seq<TxView>,
    limit: LimitView,
    removed: Seq<TxView>,
)
    requires
        settled(ready, consumed, future),
        waiting(ready, consumed, future),
    ensures
        settled(ready, consumed, trim_future(future, limit, removed).0),
        waiting(ready, consumed, trim_future(future, limit, removed).0),
    decreases future.len(),
{
    let w = worst(future);
    if 0 <= w < future.len() && crate::model::exceeded(
        limit,
        future.len() as int,
        crate::model::sum_bytes(future),
    ) {
        lemma_choice_out(ready, future, w);
        lemma_subset_self(ready);
        lemma_waiting_sub(ready, ready, consumed, future, future.remove(w));
        lemma_trim_future(ready, consumed, future.remove(w), limit, removed.push(future[w]));
    }
}

/// Enforcing the limits keeps the invariant.
pub proof fn lemma_enforce_limits_wf(s: PoolState, ready: LimitView, future: LimitView)
    requires
        pool_wf(s),
    ensures
        pool_wf(enforce_limits_spec(s, ready, future).0),
{
    lemma_trim_ready(s.ready, s.consumed, s.future, ready, Seq::empty());
    let r = trim_ready(s.ready, s.consumed, ready, Seq::empty());
    lemma_trim_future(r.0, s.consumed, s.future, future, r.1);
}

/// A run of imports from the future partition keeps the pool well-formed and
/// leaves no future record that could be ready.
pub proof fn lemma_revive(
    ready: Seq<TxView>,
    consumed: Seq<Seq<u8>>,
    future: Seq<TxView>,
    promoted: Seq<ImportedView>,
    failed: Seq<TxHash>,
)
    requires
        settled(ready, consumed, future),
    ensures
        ({
            let r = revive(ready, consumed, future, promoted, failed);
            &&& settled(r.ready, consumed, r.future)
            &&& waiting(r.ready, consumed, r.future)
            &&& subset(r.future, future)
        }),
    decreases future.len(),
{
    let choice = pick(ready, consumed, future);
    lemma_pick(ready, consumed, future);
    if choice is Some {
        let i = choice.unwrap();
        let tx = future[i];
        let rest = future.remove(i);
        lemma_choice_out(ready, future, i);
        lemma_import_ready(ready, consumed, rest, tx);
        match import_ready(ready, consumed, rest, tx) {
            Ok(p) => {
                if p.future.len() <= rest.len() {
                    let next = promoted.push(
                        ImportedView::Ready {
                            hash: tx.hash,
                            promoted: p.promoted,
                            failed: p.failed,
                            removed: p.removed,
                        },
                    );
                    lemma_revive(p.ready, consumed, p.future, next, failed);
                    let r = revive(p.ready, consumed, p.future, next, failed);
                    lemma_subset_trans(r.future, p.future, rest);
                    lemma_subset_trans(r.future, rest, future);
                } else {
                    lemma_promote_len(ready, consumed, rest, tx);
                }
            },
            Err(_) => {
                lemma_revive(ready, consumed, rest, promoted, failed.push(tx.hash));
                let r = revive(ready, consumed, rest, promoted, failed.push(tx.hash));
                lemma_subset_trans(r.future, rest, future);
            },
        }
    } else {
        lemma_subset_self(future);
    }
}

/// A run of promotions does not lengthen the future partition.
pub proof fn lemma_promote_all_len(
    ready: Seq<TxView>,
    consumed: Seq<Seq<u8>>,
    future: Seq<TxView>,
    guard: Option<TxHash>,
    promoted: Seq<TxHash>,
    failed: Seq<TxHash>,
    removed: Seq<TxView>,
)
    ensures
        promote_all(ready, consumed, future, guard, promoted, failed, removed).future.len()
            <= future.len(),
    decreases future.len(),
{
    let choice = pick(ready, consumed, future);
    if choice is Some && 0 <= choice.unwrap() < future.len() {
        let tx = future[choice.unwrap()];
        let rest = future.remove(choice.unwrap());
        match place(ready, consumed, tx, guard) {
            Placement::Placed { ready: next, usurped, cascaded } => {
                lemma_promote_all_len(
                    next,
                    consumed,
                    rest,
                    guard,
                    without_lists(promoted, usurped, cascaded, tx.hash),
                    failed + hashes_of(cascaded),
                    removed + usurped,
                );
            },
            _ => {
                lemma_promote_all_len(
                    ready,
                    consumed,
                    rest,
                    guard,
                    promoted,
                    failed.push(tx.hash),
                    removed,
                );
            },
        }
    }
}

/// Making a record ready does not lengthen the future partition.
pub proof fn lemma_promote_len(
    ready: Seq<TxView>,
    consumed: Seq<Seq<u8>>,
    future: Seq<TxView>,
    tx: TxView,
)
    ensures
        import_ready(ready, consumed, future, tx) is Ok ==> import_ready(
            ready,
            consumed,
            future,
            tx,
        )->Ok_0.future.len() <= future.len(),
{
    match place(ready, consumed, tx, None) {
        Placement::Placed { ready: next, usurped, cascaded } => {
            lemma_promote_all_len(
                next,
                consumed,
                future,
                Some(tx.hash),
                Seq::empty(),
                hashes_of(cascaded),
                usurped,
            );
        },
        _ => {},
    }
}

/// Pruning keeps the invariant.
pub proof fn lemma_prune_wf(s: PoolState, tags: Seq<Seq<u8>>)
    requires
        pool_wf(s),
    ensures
        pool_wf(prune_spec(s, tags).0),
{
    let consumed = consumed_after(s, tags);
    let doomed = hashes_of(rivals(s.ready, tags));
    let sw = sweep(s.ready, consumed, doomed);
    let rest = bystanders(s.future, tags);
    lemma_sweep_parts(s.ready, consumed, doomed);
    lemma_sweep_exclusive(s.ready, consumed, doomed);
    lemma_filter_subset(s.future, crate::model::misses(tags));
    lemma_filter_distinct(s.future, crate::model::misses(tags));
    lemma_disjoint_sub(s.ready, sw.kept, s.future, rest);
    lemma_revive(
        sw.kept,
        consumed,
        rest,
        Seq::empty(),
        hashes_of(rivals(s.future, tags)) + hashes_of(sw.cascaded),
    );
}

} // verus!
