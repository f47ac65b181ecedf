//! The channels over which the pool hands out notifications: the only place
//! where the pool calls `futures::channel::mpsc`. Nothing is proved of what
//! a channel carries; which streams the pool keeps is decided here, by what
//! became of a notification.

use vstd::prelude::*;
use futures::channel::mpsc::{Receiver, Sender, UnboundedReceiver, UnboundedSender};
use crate::listener::TransactionStatus;
use crate::facts::{lemma_take_all, lemma_take_step};
use crate::types::TxHash;

verus! {

/// The sending half of a bounded channel of `futures::channel::mpsc`, carried opaquely.
#[verifier::external_type_specification]
#[verifier::external_body]
#[verifier::reject_recursive_types(T)]
pub struct ExSender<T>(Sender<T>);

/// The receiving half of a bounded channel of `futures::channel::mpsc`, carried opaquely.
#[verifier::external_type_specification]
#[verifier::external_body]
#[verifier::reject_recursive_types(T)]
pub struct ExReceiver<T>(Receiver<T>);

/// The sending half of an unbounded channel of `futures::channel::mpsc`, carried opaquely.
#[verifier::external_type_specification]
#[verifier::external_body]
#[verifier::reject_recursive_types(T)]
pub struct ExUnboundedSender<T>(UnboundedSender<T>);

/// The receiving half of an unbounded channel of `futures::channel::mpsc`, carried opaquely.
#[verifier::external_type_specification]
#[verifier::external_body]
#[verifier::reject_recursive_types(T)]
pub struct ExUnboundedReceiver<T>(UnboundedReceiver<T>);

/// What became of a notification.
#[derive(Clone, Copy, Debug, PartialEq, Eq, Structural)]
pub enum Delivery {
    /// The channel took it.
    Delivered,
    /// The channel is full; the notification is lost.
    Full,
    /// The receiving half is gone.
    Disconnected,
}

/// Calls `futures::channel::mpsc::channel` with `buffer`. The call panics
/// for a buffer of a quarter of the address space or more, which the
/// precondition leaves out. Nothing is claimed of the two halves.
#[verifier::external_body]
pub(crate) fn open_channel(buffer: usize) -> (r: (Sender<TxHash>, Receiver<TxHash>))
    requires
        buffer < 0x3fff_ffff,
{
    futures::channel::mpsc::channel(buffer)
}

/// Calls `Sender::try_send` and tells its three outcomes apart. Which one
/// comes depends on the receiving half, so nothing is claimed of the result.
/// The call panics only once the channel queues half of the address space in
/// messages, which a bounded channel never does.
#[verifier::external_body]
pub(crate) fn try_notify(sink: &mut Sender<TxHash>, hash: TxHash) -> (r: Delivery) {
    match sink.try_send(hash) {
        Ok(()) => Delivery::Delivered,
        Err(e) => if e.is_full() {
            Delivery::Full
        } else {
            Delivery::Disconnected
        },
    }
}

/// Calls `futures::channel::mpsc::unbounded`. Nothing is claimed of the two halves.
#[verifier::external_body]
pub(crate) fn open_watch_channel() -> (r: (
    UnboundedSender<TransactionStatus>,
    UnboundedReceiver<TransactionStatus>,
)) {
    futures::channel::mpsc::unbounded()
}

/// Calls `UnboundedSender::unbounded_send` and says whether the channel took
/// the status. That depends on the receiving half, so nothing is claimed of
/// the result. The call panics only once the channel queues half of the
/// address space in messages.
#[verifier::external_body]
pub(crate) fn offer(sender: &UnboundedSender<TransactionStatus>, status: TransactionStatus) -> (r:
    bool) {
    sender.unbounded_send(status).is_ok()
}

/// The streams that stay after a notification was offered to each of
/// `streams` and `outcomes` says what became of it: a stream whose receiving
/// half is gone is let go; every other one stays, a full one too; the order
/// is kept.
pub open spec fn connected(streams: Seq<Sender<TxHash>>, outcomes: Seq<Delivery>) -> Seq<
    Sender<TxHash>,
>
    decreases streams.len(),
{
    if streams.len() == 0 || outcomes.len() != streams.len() {
        Seq::empty()
    } else if outcomes.last() == Delivery::Disconnected {
        connected(streams.drop_last(), outcomes.drop_last())
    } else {
        connected(streams.drop_last(), outcomes.drop_last()).push(streams.last())
    }
}

/// No more streams stay than there were.
pub proof fn lemma_connected_len(streams: Seq<Sender<TxHash>>, outcomes: Seq<Delivery>)
    ensures
        connected(streams, outcomes).len() <= streams.len(),
    decreases streams.len(),
{
    if streams.len() > 0 && outcomes.len() == streams.len() {
        lemma_connected_len(streams.drop_last(), outcomes.drop_last());
    }
}

/// Keeps the streams that are not disconnected, in order.
pub fn keep_connected(streams: Vec<Sender<TxHash>>, outcomes: &Vec<Delivery>) -> (r: Vec<
    Sender<TxHash>,
>)
    requires
        streams.len() == outcomes.len(),
    ensures
        r@ == connected(streams@, outcomes@),
{
    let ghost all = streams@;
    let mut kept: Vec<Sender<TxHash>> = Vec::new();
    let mut at: usize = 0;
    proof {
        assert(all.take(0) =~= Seq::<Sender<TxHash>>::empty());
    }
    for stream in it: streams
        invariant
            it.seq() == all,
            all.len() == outcomes.len(),
            at == it.index(),
            kept@ == connected(all.take(it.index() as int), outcomes@.take(it.index() as int)),
    {
        let ghost i = it.index() as int;
        proof {
            lemma_take_step(all, i);
            lemma_take_step(outcomes@, i);
            assert(all[i] == stream);
        }
        match outcomes[at] {
            Delivery::Disconnected => {},
            _ => {
                kept.push(stream);
            },
        }
        at += 1;
    }
    proof {
        lemma_take_all(all);
        lemma_take_all(outcomes@);
    }
    kept
}

} // verus!
