//! Plain data carried through the pool: tags, transaction records and their
//! mathematical views.

use vstd::prelude::*;
use std::collections::HashSet;

verus! {

/// Content hash identifying a transaction.
pub type TxHash = u64;

/// TxHash identifying a block.
pub type BlockHash = u64;

/// Height of a block.
pub type BlockNumber = u64;

/// Opaque byte string naming a precondition between transactions.
pub type Tag = Vec<u8>;

/// Importance of a transaction; higher wins.
pub type Priority = u64;

/// A point on the pool's clock, in milliseconds.
pub type Timestamp = u64;

/// Where a transaction came from.
#[derive(Clone, Copy, Debug, PartialEq, Eq, Structural)]
pub enum TransactionSource {
    /// Submitted through the local RPC.
    Local,
    /// Received from a peer by gossip.
    External,
    /// Produced by an off-chain worker of this node.
    Offchain,
}

/// Origin of a transaction together with the moment it arrived.
#[derive(Clone, Copy, Debug, PartialEq, Eq, Structural)]
pub struct TimedTransactionSource {
    pub source: TransactionSource,
    pub timestamp: Timestamp,
}

impl TimedTransactionSource {
    /// A local submission that arrived at `timestamp`.
    pub fn new_local(timestamp: Timestamp) -> (r: Self)
        ensures
            r == (TimedTransactionSource { source: TransactionSource::Local, timestamp }),
    {
        TimedTransactionSource { source: TransactionSource::Local, timestamp }
    }

    /// A gossiped transaction that arrived at `timestamp`.
    pub fn new_external(timestamp: Timestamp) -> (r: Self)
        ensures
            r == (TimedTransactionSource { source: TransactionSource::External, timestamp }),
    {
        TimedTransactionSource { source: TransactionSource::External, timestamp }
    }

    /// An off-chain worker's transaction that arrived at `timestamp`.
    pub fn new_offchain(timestamp: Timestamp) -> (r: Self)
        ensures
            r == (TimedTransactionSource { source: TransactionSource::Offchain, timestamp }),
    {
        TimedTransactionSource { source: TransactionSource::Offchain, timestamp }
    }
}

/// The outcome of a successful validity check, as the runtime reports it.
#[derive(Debug, Clone, PartialEq, Eq)]
pub struct ValidTransaction {
    pub priority: Priority,
    pub requires: Vec<Tag>,
    pub provides: Vec<Tag>,
    pub longevity: u64,
    pub propagate: bool,
}

/// An entry of the pool. A record never changes once it is inserted.
#[derive(Debug, Clone, PartialEq, Eq)]
pub struct Transaction {
    /// Opaque encoded body.
    pub data: Vec<u8>,
    /// Encoded length.
    pub bytes: usize,
    /// Content hash; the identity of the record.
    pub hash: TxHash,
    /// Importance; higher wins.
    pub priority: Priority,
    /// Last block at which the record is still valid.
    pub valid_till: BlockNumber,
    /// Tags that must be satisfied before the record is ready.
    pub requires: Vec<Tag>,
    /// Tags that the record satisfies for others.
    pub provides: Vec<Tag>,
    /// Whether the record may be offered to peers.
    pub propagate: bool,
    /// Origin and arrival time.
    pub source: TimedTransactionSource,
}

/// Mathematical value of a [`Transaction`].
pub struct TxView {
    pub data: Seq<u8>,
    pub bytes: usize,
    pub hash: TxHash,
    pub priority: Priority,
    pub valid_till: BlockNumber,
    pub requires: Seq<Seq<u8>>,
    pub provides: Seq<Seq<u8>>,
    pub propagate: bool,
    pub source: TimedTransactionSource,
}

/// The byte strings held by a list of tags.
pub open spec fn tag_views(tags: Seq<Tag>) -> Seq<Seq<u8>> {
    tags.map_values(|t: Tag| t@)
}

/// The values held by a list of records.
pub open spec fn tx_views(txs: Seq<Transaction>) -> Seq<TxView> {
    txs.map_values(|t: Transaction| t@)
}

impl View for Transaction {
    type V = TxView;

    open spec fn view(&self) -> TxView {
        TxView {
            data: self.data@,
            bytes: self.bytes,
            hash: self.hash,
            priority: self.priority,
            valid_till: self.valid_till,
            requires: tag_views(self.requires@),
            provides: tag_views(self.provides@),
            propagate: self.propagate,
            source: self.source,
        }
    }
}

/// Appending a tag appends its bytes to the views.
pub proof fn lemma_tag_views_push(tags: Seq<Tag>, tag: Tag)
    ensures
        tag_views(tags.push(tag)) == tag_views(tags).push(tag@),
{
    assert(tag_views(tags.push(tag)) =~= tag_views(tags).push(tag@));
}

/// Appending a record appends its value to the views.
pub proof fn lemma_tx_views_push(txs: Seq<Transaction>, tx: Transaction)
    ensures
        tx_views(txs.push(tx)) == tx_views(txs).push(tx@),
{
    assert(tx_views(txs.push(tx)) =~= tx_views(txs).push(tx@));
}

/// Removing the record at `i` removes its value from the views.
pub proof fn lemma_tx_views_remove(txs: Seq<Transaction>, i: int)
    requires
        0 <= i < txs.len(),
    ensures
        tx_views(txs.remove(i)) == tx_views(txs).remove(i),
{
    assert(tx_views(txs.remove(i)) =~= tx_views(txs).remove(i));
}

/// Whether two tags hold the same bytes.
pub fn tag_eq(a: &Tag, b: &Tag) -> (r: bool)
    ensures
        r == (a@ == b@),
{
    if a.len() != b.len() {
        return false;
    }
    let mut i: usize = 0;
    while i < a.len()
        invariant
            a.len() == b.len(),
            i <= a.len(),
            forall|k: int| 0 <= k < i ==> a@[k] == b@[k],
        decreases a.len() - i,
    {
        if a[i] != b[i] {
            return false;
        }
        i += 1;
    }
    assert(a@ =~= b@);
    true
}

/// Whether `tag` occurs in `tags`.
pub fn tag_in(tags: &Vec<Tag>, tag: &Tag) -> (r: bool)
    ensures
        r == tag_views(tags@).contains(tag@),
{
    let mut i: usize = 0;
    while i < tags.len()
        invariant
            i <= tags.len(),
            forall|k: int| 0 <= k < i ==> tag_views(tags@)[k] != tag@,
        decreases tags.len() - i,
    {
        if tag_eq(&tags[i], tag) {
            assert(tag_views(tags@)[i as int] == tag@);
            return true;
        }
        i += 1;
    }
    false
}

/// Whether `hash` occurs in `hashes`.
pub fn hash_in(hashes: &[TxHash], hash: TxHash) -> (r: bool)
    ensures
        r == hashes@.contains(hash),
{
    let mut i: usize = 0;
    while i < hashes.len()
        invariant
            i <= hashes.len(),
            forall|k: int| 0 <= k < i ==> hashes@[k] != hash,
        decreases hashes.len() - i,
    {
        if hashes[i] == hash {
            return true;
        }
        i += 1;
    }
    false
}

/// A fresh copy of a byte string.
pub fn copy_bytes(bytes: &Vec<u8>) -> (r: Vec<u8>)
    ensures
        r@ == bytes@,
{
    let mut out: Vec<u8> = Vec::new();
    let mut i: usize = 0;
    while i < bytes.len()
        invariant
            i <= bytes.len(),
            out@ == bytes@.take(i as int),
        decreases bytes.len() - i,
    {
        out.push(bytes[i]);
        i += 1;
    }
    out
}

/// A fresh copy of a list of tags.
pub fn copy_tags(tags: &Vec<Tag>) -> (r: Vec<Tag>)
    ensures
        tag_views(r@) == tag_views(tags@),
{
    let mut out: Vec<Tag> = Vec::new();
    let mut i: usize = 0;
    while i < tags.len()
        invariant
            i <= tags.len(),
            tag_views(out@) == tag_views(tags@).take(i as int),
        decreases tags.len() - i,
    {
        let ghost before = out@;
        let tag: Tag = copy_bytes(&tags[i]);
        out.push(tag);
        proof {
            lemma_tag_views_push(before, tag);
            assert(tag_views(tags@).take(i as int + 1) =~= tag_views(tags@).take(i as int).push(
                tags@[i as int]@,
            ));
        }
        i += 1;
    }
    assert(tag_views(tags@).take(i as int) =~= tag_views(tags@));
    out
}

impl Transaction {
    /// A fresh record with the same value.
    pub fn duplicate(&self) -> (r: Transaction)
        ensures
            r@ == self@,
    {
        Transaction {
            data: copy_bytes(&self.data),
            bytes: self.bytes,
            hash: self.hash,
            priority: self.priority,
            valid_till: self.valid_till,
            requires: copy_tags(&self.requires),
            provides: copy_tags(&self.provides),
            propagate: self.propagate,
            source: self.source,
        }
    }

    /// Whether the record may be offered to peers.
    pub fn is_propagable(&self) -> (r: bool)
        ensures
            r == self.propagate,
    {
        self.propagate
    }
}

/// Copies of the records in `txs`, in order.
pub fn duplicate_all(txs: &Vec<Transaction>) -> (r: Vec<Transaction>)
    ensures
        tx_views(r@) == tx_views(txs@),
{
    let mut out: Vec<Transaction> = Vec::new();
    let mut i: usize = 0;
    while i < txs.len()
        invariant
            i <= txs.len(),
            tx_views(out@) == tx_views(txs@).take(i as int),
        decreases txs.len() - i,
    {
        let ghost before = out@;
        let tx: Transaction = txs[i].duplicate();
        out.push(tx);
        proof {
            lemma_tx_views_push(before, tx);
            assert(tx_views(txs@).take(i as int + 1) =~= tx_views(txs@).take(i as int).push(
                txs@[i as int]@,
            ));
        }
        i += 1;
    }
    assert(tx_views(txs@).take(i as int) =~= tx_views(txs@));
    out
}

/// The set of the hashes of `list`.
pub fn hash_set_of(list: &Vec<TxHash>) -> (r: HashSet<TxHash>)
    ensures
        forall|h: TxHash| r@.contains(h) <==> list@.contains(h),
{
    let mut set: HashSet<TxHash> = HashSet::new();
    let mut i: usize = 0;
    while i < list.len()
        invariant
            i <= list.len(),
            forall|h: TxHash| set@.contains(h) <==> list@.take(i as int).contains(h),
        decreases list.len() - i,
    {
        set.insert(list[i]);
        proof {
            assert forall|h: TxHash| set@.contains(h) <==> list@.take(i as int + 1).contains(h) by {
                crate::facts::lemma_take_contains(list@, i as int, h);
            }
        }
        i += 1;
    }
    proof {
        assert(list@.take(list.len() as int) =~= list@);
    }
    set
}

/// Whether `hash` is in `set`.
pub fn in_set(set: &HashSet<TxHash>, hash: TxHash) -> (r: bool)
    ensures
        r == set@.contains(hash),
{
    set.contains(&hash)
}

} // verus!
