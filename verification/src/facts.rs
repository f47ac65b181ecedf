//! Small facts about sequences and about the pool's model that the verified
//! code leans on.

use vstd::prelude::*;
use crate::model::{
    absorb, all_met, has_hash, hashes_of, lookup, pick, sum_bytes, sweep, waiting, worst,
};
use crate::types::{TxHash, TxView};

verus! {

/// A prefix grows by one element at a time.
pub proof fn lemma_take_step<A>(s: Seq<A>, i: int)
    requires
        0 <= i < s.len(),
    ensures
        s.take(i + 1) == s.take(i).push(s[i]),
        s.take(i + 1).drop_last() == s.take(i),
        s.take(i + 1).last() == s[i],
{
    assert(s.take(i + 1) =~= s.take(i).push(s[i]));
    assert(s.take(i + 1).drop_last() =~= s.take(i));
}

/// What a prefix holds once it has grown by one element.
pub proof fn lemma_take_contains<A>(s: Seq<A>, i: int, x: A)
    requires
        0 <= i < s.len(),
    ensures
        s.take(i + 1).contains(x) <==> s.take(i).contains(x) || s[i] == x,
{
    let short = s.take(i);
    let long = s.take(i + 1);
    if short.contains(x) {
        let k = choose|k: int| 0 <= k < short.len() && short[k] == x;
        assert(long[k] == x);
    }
    if s[i] == x {
        assert(long[i] == x);
    }
    if long.contains(x) {
        let k = choose|k: int| 0 <= k < long.len() && long[k] == x;
        if k < i {
            assert(short[k] == x);
        }
    }
}

/// The whole sequence is its longest prefix.
pub proof fn lemma_take_all<A>(s: Seq<A>)
    ensures
        s.take(s.len() as int) == s,
{
    assert(s.take(s.len() as int) =~= s);
}

/// Dropping the last element undoes a push.
pub proof fn lemma_push_drop_last<A>(s: Seq<A>, x: A)
    ensures
        s.push(x).drop_last() == s,
        s.push(x).last() == x,
{
    assert(s.push(x).drop_last() =~= s);
}

/// How filtering a prefix goes on when the prefix grows.
pub proof fn lemma_filter_step<A>(s: Seq<A>, i: int, p: spec_fn(A) -> bool)
    requires
        0 <= i < s.len(),
    ensures
        s.take(i + 1).filter(p) == if p(s[i]) {
            s.take(i).filter(p).push(s[i])
        } else {
            s.take(i).filter(p)
        },
{
    lemma_take_step(s, i);
    s.take(i).lemma_filter_push(s[i], p);
}

/// Filtering nothing gives nothing.
pub proof fn lemma_filter_empty<A>(p: spec_fn(A) -> bool)
    ensures
        Seq::<A>::empty().filter(p) == Seq::<A>::empty(),
{
    reveal(Seq::filter);
}

/// The values of two lists of records, one after the other.
pub proof fn lemma_tx_views_add(a: Seq<crate::types::Transaction>, b: Seq<crate::types::Transaction>)
    ensures
        crate::types::tx_views(a + b) == crate::types::tx_views(a) + crate::types::tx_views(b),
{
    assert(crate::types::tx_views(a + b) =~= crate::types::tx_views(a) + crate::types::tx_views(b));
}

/// The hashes of a list with one more record.
pub proof fn lemma_hashes_push(s: Seq<TxView>, x: TxView)
    ensures
        hashes_of(s.push(x)) == hashes_of(s).push(x.hash),
{
    assert(hashes_of(s.push(x)) =~= hashes_of(s).push(x.hash));
}

/// A hash is among the hashes of a list exactly if a record of the list has it.
pub proof fn lemma_hashes_contains(s: Seq<TxView>, h: TxHash)
    ensures
        hashes_of(s).contains(h) == has_hash(s, h),
{
    if hashes_of(s).contains(h) {
        let i = choose|i: int| 0 <= i < hashes_of(s).len() && hashes_of(s)[i] == h;
        assert(s[i].hash == h);
    }
    if has_hash(s, h) {
        let i = choose|i: int| 0 <= i < s.len() && (#[trigger] s[i]).hash == h;
        assert(hashes_of(s)[i] == h);
    }
}

/// Byte sums are not negative.
pub proof fn lemma_sum_nonneg(s: Seq<TxView>)
    ensures
        sum_bytes(s) >= 0,
    decreases s.len(),
{
    if s.len() > 0 {
        lemma_sum_nonneg(s.drop_last());
    }
}

/// The byte sum of a list with one more record.
pub proof fn lemma_sum_push(s: Seq<TxView>, x: TxView)
    ensures
        sum_bytes(s.push(x)) == sum_bytes(s) + x.bytes,
{
    lemma_push_drop_last(s, x);
}

/// The byte sum of two lists, one after the other.
pub proof fn lemma_sum_add(a: Seq<TxView>, b: Seq<TxView>)
    ensures
        sum_bytes(a + b) == sum_bytes(a) + sum_bytes(b),
    decreases b.len(),
{
    if b.len() == 0 {
        assert(a + b =~= a);
    } else {
        assert((a + b).drop_last() =~= a + b.drop_last());
        lemma_sum_add(a, b.drop_last());
    }
}

/// The byte sum of a list without the record at `i`.
pub proof fn lemma_sum_remove(s: Seq<TxView>, i: int)
    requires
        0 <= i < s.len(),
    ensures
        sum_bytes(s.remove(i)) == sum_bytes(s) - s[i].bytes,
    decreases s.len(),
{
    if i == s.len() - 1 {
        assert(s.remove(i) =~= s.drop_last());
    } else {
        assert(s.remove(i).drop_last() =~= s.drop_last().remove(i));
        lemma_sum_remove(s.drop_last(), i);
    }
}

/// The byte sum of a prefix is at most the byte sum of the whole.
pub proof fn lemma_sum_prefix(s: Seq<TxView>, i: int)
    requires
        0 <= i <= s.len(),
    ensures
        0 <= sum_bytes(s.take(i)) <= sum_bytes(s),
{
    assert(s.take(i) + s.skip(i) =~= s);
    lemma_sum_add(s.take(i), s.skip(i));
    lemma_sum_nonneg(s.take(i));
    lemma_sum_nonneg(s.skip(i));
}

/// A choice is an index of a record whose requirements are met; no choice
/// means that no record has its requirements met.
pub proof fn lemma_pick(ready: Seq<TxView>, consumed: Seq<Seq<u8>>, pending: Seq<TxView>)
    ensures
        match pick(ready, consumed, pending) {
            Some(i) => 0 <= i < pending.len() && all_met(ready, consumed, pending[i]),
            None => waiting(ready, consumed, pending),
        },
    decreases pending.len(),
{
    if pending.len() > 0 {
        let rest = pending.drop_last();
        lemma_pick(ready, consumed, rest);
        if pick(ready, consumed, pending) is None {
            assert forall|k: int| 0 <= k < pending.len() implies !all_met(
                ready,
                consumed,
                #[trigger] pending[k],
            ) by {
                if k < rest.len() {
                    assert(pending[k] == rest[k]);
                }
            }
        }
    }
}

/// The index of the worst record is an index.
pub proof fn lemma_worst(txs: Seq<TxView>)
    requires
        txs.len() > 0,
    ensures
        0 <= worst(txs) < txs.len(),
    decreases txs.len(),
{
    if txs.len() > 1 {
        lemma_worst(txs.drop_last());
    }
}

/// A sweep sorts every record into one of its three lists.
pub proof fn lemma_sweep_sizes(ready: Seq<TxView>, consumed: Seq<Seq<u8>>, doomed: Seq<TxHash>)
    ensures
        ({
            let sw = sweep(ready, consumed, doomed);
            &&& sw.kept.len() + sw.roots.len() + sw.cascaded.len() == ready.len()
            &&& sum_bytes(sw.kept) + sum_bytes(sw.roots) + sum_bytes(sw.cascaded) == sum_bytes(
                ready,
            )
            &&& sum_bytes(sw.kept) >= 0
            &&& sum_bytes(sw.roots) >= 0
            &&& sum_bytes(sw.cascaded) >= 0
        }),
    decreases ready.len(),
{
    let sw = sweep(ready, consumed, doomed);
    lemma_sum_nonneg(sw.kept);
    lemma_sum_nonneg(sw.roots);
    lemma_sum_nonneg(sw.cascaded);
    if ready.len() > 0 {
        let before = sweep(ready.drop_last(), consumed, doomed);
        lemma_sweep_sizes(ready.drop_last(), consumed, doomed);
        lemma_sum_push(before.kept, ready.last());
        lemma_sum_push(before.roots, ready.last());
        lemma_sum_push(before.cascaded, ready.last());
    }
}

/// A doomed record that is ready is among the roots of the sweep.
pub proof fn lemma_sweep_hits(
    ready: Seq<TxView>,
    consumed: Seq<Seq<u8>>,
    doomed: Seq<TxHash>,
    i: int,
)
    requires
        0 <= i < ready.len(),
        doomed.contains(ready[i].hash),
    ensures
        sweep(ready, consumed, doomed).roots.len() > 0,
        sweep(ready, consumed, doomed).kept.len() < ready.len(),
    decreases ready.len(),
{
    lemma_sweep_sizes(ready, consumed, doomed);
    if i < ready.len() - 1 {
        lemma_sweep_hits(ready.drop_last(), consumed, doomed, i);
    }
}

/// Looking a hash up finds a record exactly if some record has the hash.
pub proof fn lemma_lookup_some(txs: Seq<TxView>, hash: TxHash)
    ensures
        lookup(txs, hash) is Some == has_hash(txs, hash),
    decreases txs.len(),
{
    if txs.len() > 0 {
        let rest = txs.drop_last();
        lemma_lookup_some(rest, hash);
        if has_hash(rest, hash) {
            let k = choose|k: int| 0 <= k < rest.len() && (#[trigger] rest[k]).hash == hash;
            assert(txs[k].hash == hash);
        } else if txs.last().hash == hash {
            assert(txs[txs.len() - 1].hash == hash);
        } else if has_hash(txs, hash) {
            let k = choose|k: int| 0 <= k < txs.len() && (#[trigger] txs[k]).hash == hash;
            assert(rest[k].hash == hash);
        }
    }
}

/// Looking a hash up gives the first record that has it.
pub proof fn lemma_lookup_first(txs: Seq<TxView>, hash: TxHash, i: int)
    requires
        0 <= i < txs.len(),
        txs[i].hash == hash,
        forall|j: int| 0 <= j < i ==> (#[trigger] txs[j]).hash != hash,
    ensures
        lookup(txs, hash) == Some(txs[i]),
    decreases txs.len(),
{
    let rest = txs.drop_last();
    if i < txs.len() - 1 {
        assert(rest[i] == txs[i]);
        assert forall|j: int| 0 <= j < i implies (#[trigger] rest[j]).hash != hash by {
            assert(rest[j] == txs[j]);
        }
        lemma_lookup_first(rest, hash, i);
    } else {
        lemma_lookup_some(rest, hash);
        if has_hash(rest, hash) {
            let k = choose|k: int| 0 <= k < rest.len() && (#[trigger] rest[k]).hash == hash;
            assert(rest[k] == txs[k]);
        }
    }
}

/// Absorbing two lists of tags, one after the other, is absorbing them in turn.
pub proof fn lemma_absorb_add(consumed: Seq<Seq<u8>>, a: Seq<Seq<u8>>, b: Seq<Seq<u8>>)
    ensures
        absorb(consumed, a + b) == absorb(absorb(consumed, a), b),
    decreases b.len(),
{
    if b.len() == 0 {
        assert(a + b =~= a);
    } else {
        assert((a + b).drop_last() =~= a + b.drop_last());
        lemma_absorb_add(consumed, a, b.drop_last());
    }
}

} // verus!
