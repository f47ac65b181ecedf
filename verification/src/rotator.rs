//! The rotator: a bounded memory of banned transactions, and the test for
//! transactions that have outlived their validity.

use vstd::prelude::*;
use crate::facts::{lemma_filter_empty, lemma_filter_step, lemma_take_all, lemma_take_step};
use crate::types::{BlockNumber, Timestamp, Transaction, TxHash, TxView};

verus! {

/// A banned hash and the moment at which the ban ends.
#[derive(Clone, Copy, Debug, PartialEq, Eq, Structural)]
pub struct Ban {
    pub hash: TxHash,
    pub until: Timestamp,
}

/// Number of bans that a rotator remembers unless told otherwise.
pub const EXPECTED_SIZE: usize = 2048;

/// The age that no transaction exceeds.
pub const NO_HARD_AGE: u64 = 0xffff_ffff_ffff_ffff;

/// The moment `span` after `now`, or the last moment of the clock.
pub open spec fn deadline(now: Timestamp, span: u64) -> Timestamp {
    if now + span > u64::MAX {
        u64::MAX
    } else {
        (now + span) as u64
    }
}

/// The first position at which `hash` is banned, if it is.
pub open spec fn banned_at(bans: Seq<Ban>, hash: TxHash) -> Option<int>
    decreases bans.len(),
{
    if bans.len() == 0 {
        None
    } else {
        match banned_at(bans.drop_last(), hash) {
            Some(i) => Some(i),
            None => if bans.last().hash == hash {
                Some(bans.len() - 1)
            } else {
                None
            },
        }
    }
}

/// The bans with `hash` banned until `until`: its ban is renewed where it has
/// one, and appended where it has none.
pub open spec fn ban_one(bans: Seq<Ban>, hash: TxHash, until: Timestamp) -> Seq<Ban> {
    match banned_at(bans, hash) {
        Some(i) => bans.update(i, Ban { hash, until }),
        None => bans.push(Ban { hash, until }),
    }
}

/// The bans with every hash of `hashes` banned until `until`.
pub open spec fn ban_all(bans: Seq<Ban>, hashes: Seq<TxHash>, until: Timestamp) -> Seq<Ban>
    decreases hashes.len(),
{
    if hashes.len() == 0 {
        bans
    } else {
        ban_one(ban_all(bans, hashes.drop_last(), until), hashes.last(), until)
    }
}

/// The position of the ban that ends first; the earliest among equals.
pub open spec fn soonest(bans: Seq<Ban>) -> int
    decreases bans.len(),
{
    if bans.len() <= 1 {
        0
    } else {
        let prev = soonest(bans.drop_last());
        if bans.last().until < bans[prev].until {
            bans.len() - 1
        } else {
            prev
        }
    }
}

/// The bans after those that end first are forgotten until at most
/// `capacity` are left.
pub open spec fn evict(bans: Seq<Ban>, capacity: int) -> Seq<Ban>
    decreases bans.len(),
{
    let s = soonest(bans);
    if bans.len() > capacity && 0 <= s < bans.len() {
        evict(bans.remove(s), capacity)
    } else {
        bans
    }
}

/// The test "the ban has not ended at `now`".
pub open spec fn in_force(now: Timestamp) -> spec_fn(Ban) -> bool {
    |b: Ban| b.until > now
}

/// Whether `hash` is banned at `now`.
pub open spec fn is_banned_at(bans: Seq<Ban>, now: Timestamp, hash: TxHash) -> bool {
    exists|i: int| 0 <= i < bans.len() && (#[trigger] bans[i]).hash == hash && bans[i].until > now
}

/// Whether `tx` is stale: its validity ended before `current_block`, or it
/// arrived more than `hard_age` before `now`.
pub open spec fn is_stale(
    now: Timestamp,
    current_block: BlockNumber,
    hard_age: u64,
    tx: TxView,
) -> bool {
    tx.valid_till < current_block || (now >= tx.source.timestamp && now - tx.source.timestamp
        > hard_age)
}

/// Mathematical value of a rotator.
pub struct RotatorState {
    /// The bans, in the order in which the hashes were first banned.
    pub bans: Seq<Ban>,
    /// How long a ban lasts.
    pub ban_time: u64,
    /// The age beyond which a transaction is stale.
    pub hard_age: u64,
    /// Most bans that are remembered.
    pub capacity: usize,
}

/// The rotator after the hashes of `hashes` are banned at `now`.
pub open spec fn ban_spec(s: RotatorState, now: Timestamp, hashes: Seq<TxHash>) -> RotatorState {
    RotatorState {
        bans: evict(ban_all(s.bans, hashes, deadline(now, s.ban_time)), s.capacity as int),
        ..s
    }
}

/// The rotator after the bans that have ended at `now` are forgotten.
pub open spec fn clear_spec(s: RotatorState, now: Timestamp) -> RotatorState {
    RotatorState { bans: s.bans.filter(in_force(now)), ..s }
}

/// The rotator after `tx` is banned if it is stale.
pub open spec fn ban_if_stale_spec(
    s: RotatorState,
    now: Timestamp,
    current_block: BlockNumber,
    tx: TxView,
) -> RotatorState {
    if is_stale(now, current_block, s.hard_age, tx) {
        ban_spec(s, now, seq![tx.hash])
    } else {
        s
    }
}

/// The position of the soonest ban is a position.
pub proof fn lemma_soonest(bans: Seq<Ban>)
    requires
        bans.len() > 0,
    ensures
        0 <= soonest(bans) < bans.len(),
    decreases bans.len(),
{
    if bans.len() > 1 {
        lemma_soonest(bans.drop_last());
    }
}

/// The ban that is forgotten first ends no later than any other.
pub proof fn lemma_soonest_ends_first(bans: Seq<Ban>, j: int)
    requires
        0 <= j < bans.len(),
    ensures
        0 <= soonest(bans) < bans.len(),
        bans[soonest(bans)].until <= bans[j].until,
    decreases bans.len(),
{
    lemma_soonest(bans);
    if bans.len() > 1 {
        lemma_soonest(bans.drop_last());
        if j < bans.len() - 1 {
            lemma_soonest_ends_first(bans.drop_last(), j);
        }
    }
}

/// After eviction at most `capacity` bans are left.
pub proof fn lemma_evict_bound(bans: Seq<Ban>, capacity: int)
    requires
        capacity >= 0,
    ensures
        evict(bans, capacity).len() <= capacity || evict(bans, capacity).len() <= 0,
        evict(bans, capacity).len() <= bans.len(),
    decreases bans.len(),
{
    if bans.len() > 0 {
        lemma_soonest(bans);
    }
    let s = soonest(bans);
    if bans.len() > capacity && 0 <= s < bans.len() {
        lemma_evict_bound(bans.remove(s), capacity);
    }
}

/// The first position of a hash is a position that holds the hash, and no
/// position holds a hash that has none.
pub proof fn lemma_banned_at(bans: Seq<Ban>, hash: TxHash)
    ensures
        match banned_at(bans, hash) {
            Some(i) => 0 <= i < bans.len() && bans[i].hash == hash && (forall|j: int|
                0 <= j < i ==> (#[trigger] bans[j]).hash != hash),
            None => forall|j: int| 0 <= j < bans.len() ==> (#[trigger] bans[j]).hash != hash,
        },
    decreases bans.len(),
{
    if bans.len() > 0 {
        lemma_banned_at(bans.drop_last(), hash);
        match banned_at(bans.drop_last(), hash) {
            Some(i) => {
                assert(bans[i] == bans.drop_last()[i]);
                assert forall|j: int| 0 <= j < i implies (#[trigger] bans[j]).hash != hash by {
                    assert(bans[j] == bans.drop_last()[j]);
                }
            },
            None => {
                assert forall|j: int| 0 <= j < bans.len() - 1 implies (#[trigger] bans[j]).hash
                    != hash by {
                    assert(bans[j] == bans.drop_last()[j]);
                }
            },
        }
    }
}

/// No hash has two bans.
pub open spec fn one_ban_each(bans: Seq<Ban>) -> bool {
    forall|i: int, j: int| 0 <= i < j < bans.len() ==> (#[trigger] bans[i]).hash != (#[trigger] bans[j]).hash
}

/// Banning a hash leaves every hash with one ban.
pub proof fn lemma_ban_one_keeps_one_each(bans: Seq<Ban>, hash: TxHash, until: Timestamp)
    requires
        one_ban_each(bans),
    ensures
        one_ban_each(ban_one(bans, hash, until)),
{
    lemma_banned_at(bans, hash);
    let after = ban_one(bans, hash, until);
    assert forall|i: int, j: int| 0 <= i < j < after.len() implies (#[trigger] after[i]).hash != (
    #[trigger] after[j]).hash by {
        match banned_at(bans, hash) {
            Some(k) => {
                assert(after[i].hash == bans[i].hash);
                assert(after[j].hash == bans[j].hash);
            },
            None => {
                if j < bans.len() {
                    assert(bans[i].hash != bans[j].hash);
                } else {
                    assert(bans[i].hash != hash);
                }
            },
        }
    }
}

/// Banning hashes leaves every hash with one ban.
pub proof fn lemma_ban_all_keeps_one_each(bans: Seq<Ban>, hashes: Seq<TxHash>, until: Timestamp)
    requires
        one_ban_each(bans),
    ensures
        one_ban_each(ban_all(bans, hashes, until)),
    decreases hashes.len(),
{
    if hashes.len() > 0 {
        lemma_ban_all_keeps_one_each(bans, hashes.drop_last(), until);
        lemma_ban_one_keeps_one_each(
            ban_all(bans, hashes.drop_last(), until),
            hashes.last(),
            until,
        );
    }
}

/// Forgetting bans leaves every hash with one ban.
pub proof fn lemma_evict_keeps_one_each(bans: Seq<Ban>, capacity: int)
    requires
        one_ban_each(bans),
    ensures
        one_ban_each(evict(bans, capacity)),
    decreases bans.len(),
{
    let s = soonest(bans);
    if bans.len() > capacity && 0 <= s < bans.len() {
        let rest = bans.remove(s);
        assert forall|i: int, j: int| 0 <= i < j < rest.len() implies (#[trigger] rest[i]).hash != (
        #[trigger] rest[j]).hash by {
            let a = if i < s { i } else { i + 1 };
            let b = if j < s { j } else { j + 1 };
            assert(rest[i] == bans[a]);
            assert(rest[j] == bans[b]);
            assert(bans[a].hash != bans[b].hash);
        }
        lemma_evict_keeps_one_each(rest, capacity);
    }
}

/// Filtering bans leaves every hash with one ban.
pub proof fn lemma_filter_keeps_one_each(bans: Seq<Ban>, test: spec_fn(Ban) -> bool)
    requires
        one_ban_each(bans),
    ensures
        one_ban_each(bans.filter(test)),
        forall|i: int| 0 <= i < bans.filter(test).len() ==> bans.contains(#[trigger] bans.filter(test)[i]),
    decreases bans.len(),
{
    reveal(Seq::filter);
    if bans.len() > 0 {
        let rest = bans.drop_last();
        assert(one_ban_each(rest)) by {
            assert forall|i: int, j: int| 0 <= i < j < rest.len() implies (#[trigger] rest[i]).hash
                != (#[trigger] rest[j]).hash by {
                assert(bans[i].hash != bans[j].hash);
            }
        }
        lemma_filter_keeps_one_each(rest, test);
        let kept = rest.filter(test);
        let all = bans.filter(test);
        assert forall|i: int| 0 <= i < all.len() implies bans.contains(#[trigger] all[i]) by {
            if i < kept.len() {
                assert(rest.contains(kept[i]));
                let k = choose|k: int| 0 <= k < rest.len() && rest[k] == kept[i];
                assert(bans[k] == all[i]);
            } else {
                assert(bans[bans.len() - 1] == all[i]);
            }
        }
        if test(bans.last()) {
            assert forall|i: int, j: int| 0 <= i < j < all.len() implies (#[trigger] all[i]).hash != (
            #[trigger] all[j]).hash by {
                if j < kept.len() {
                    assert(kept[i].hash != kept[j].hash);
                } else {
                    assert(rest.contains(kept[i]));
                    let k = choose|k: int| 0 <= k < rest.len() && rest[k] == kept[i];
                    assert(bans[k].hash != bans[bans.len() - 1].hash);
                }
            }
        }
    }
}

/// A bounded memory of banned transactions.
pub struct PoolRotator {
    ban_time: u64,
    hard_age: u64,
    expected_size: usize,
    banned_until: Vec<Ban>,
}

impl View for PoolRotator {
    type V = RotatorState;

    closed spec fn view(&self) -> RotatorState {
        RotatorState {
            bans: self.banned_until@,
            ban_time: self.ban_time,
            hard_age: self.hard_age,
            capacity: self.expected_size,
        }
    }
}

impl PoolRotator {
    /// The rotator remembers no more bans than it was made for, and one ban
    /// for each hash.
    pub open spec fn wf(&self) -> bool {
        &&& self@.bans.len() <= self@.capacity
        &&& one_ban_each(self@.bans)
    }

    /// A rotator whose bans last `ban_time` and that remembers the usual
    /// number of them.
    pub fn new(ban_time: u64) -> (r: Self)
        ensures
            r.wf(),
            r@ == (RotatorState {
                bans: Seq::empty(),
                ban_time,
                hard_age: NO_HARD_AGE,
                capacity: EXPECTED_SIZE,
            }),
    {
        PoolRotator {
            ban_time,
            hard_age: NO_HARD_AGE,
            expected_size: EXPECTED_SIZE,
            banned_until: Vec::new(),
        }
    }

    /// A rotator whose bans last `ban_time` and that remembers `expected_size` of them.
    pub fn new_with_expected_size(ban_time: u64, expected_size: usize) -> (r: Self)
        ensures
            r.wf(),
            r@ == (RotatorState {
                bans: Seq::empty(),
                ban_time,
                hard_age: NO_HARD_AGE,
                capacity: expected_size,
            }),
    {
        PoolRotator { ban_time, hard_age: NO_HARD_AGE, expected_size, banned_until: Vec::new() }
    }

    /// The same rotator, for which a transaction is stale once it is older
    /// than `hard_age`.
    pub fn with_hard_age(self, hard_age: u64) -> (r: Self)
        ensures
            r@ == (RotatorState { hard_age, ..self@ }),
            self.wf() ==> r.wf(),
    {
        PoolRotator {
            ban_time: self.ban_time,
            hard_age,
            expected_size: self.expected_size,
            banned_until: self.banned_until,
        }
    }

    /// A rotator with the same bans.
    pub fn duplicate(&self) -> (r: Self)
        ensures
            r@ == self@,
            self.wf() ==> r.wf(),
    {
        let mut bans: Vec<Ban> = Vec::new();
        let mut i: usize = 0;
        while i < self.banned_until.len()
            invariant
                i <= self.banned_until.len(),
                bans@ == self.banned_until@.take(i as int),
            decreases self.banned_until.len() - i,
        {
            proof {
                lemma_take_step(self.banned_until@, i as int);
            }
            bans.push(self.banned_until[i]);
            i += 1;
        }
        proof {
            lemma_take_all(self.banned_until@);
        }
        PoolRotator {
            ban_time: self.ban_time,
            hard_age: self.hard_age,
            expected_size: self.expected_size,
            banned_until: bans,
        }
    }

    /// Number of bans that are remembered.
    pub fn len(&self) -> (r: usize)
        ensures
            r == self@.bans.len(),
    {
        self.banned_until.len()
    }

    /// Whether `hash` is banned at `now`.
    pub fn is_banned(&self, now: Timestamp, hash: &TxHash) -> (r: bool)
        ensures
            r == is_banned_at(self@.bans, now, *hash),
    {
        let mut i: usize = 0;
        while i < self.banned_until.len()
            invariant
                i <= self.banned_until.len(),
                forall|j: int|
                    0 <= j < i ==> !((#[trigger] self.banned_until@[j]).hash == *hash
                        && self.banned_until@[j].until > now),
            decreases self.banned_until.len() - i,
        {
            if self.banned_until[i].hash == *hash && self.banned_until[i].until > now {
                return true;
            }
            i += 1;
        }
        false
    }

    /// The first position at which `hash` is banned.
    fn find(&self, hash: TxHash) -> (r: Option<usize>)
        ensures
            match r {
                Some(i) => banned_at(self.banned_until@, hash) == Some(i as int) && i
                    < self.banned_until.len(),
                None => banned_at(self.banned_until@, hash) is None,
            },
    {
        proof {
            lemma_banned_at(self.banned_until@, hash);
        }
        let mut i: usize = 0;
        while i < self.banned_until.len()
            invariant
                i <= self.banned_until.len(),
                forall|j: int| 0 <= j < i ==> (#[trigger] self.banned_until@[j]).hash != hash,
            decreases self.banned_until.len() - i,
        {
            if self.banned_until[i].hash == hash {
                proof {
                    let bans = self.banned_until@;
                    lemma_banned_at(bans, hash);
                    assert(bans[i as int].hash == hash);
                    match banned_at(bans, hash) {
                        Some(k) => {
                            if k < i {
                                assert(bans[k].hash != hash);
                            } else if k > i {
                                assert(bans[i as int].hash != hash);
                            }
                        },
                        None => {},
                    }
                }
                return Some(i);
            }
            i += 1;
        }
        proof {
            lemma_banned_at(self.banned_until@, hash);
            if banned_at(self.banned_until@, hash) is Some {
                let k = banned_at(self.banned_until@, hash).unwrap();
                assert(self.banned_until@[k].hash != hash);
            }
        }
        None
    }

    /// The position of the ban that ends first.
    fn find_soonest(&self) -> (r: usize)
        requires
            self.banned_until.len() > 0,
        ensures
            r == soonest(self.banned_until@),
            r < self.banned_until.len(),
    {
        let ghost bans = self.banned_until@;
        let mut at: usize = 0;
        let mut i: usize = 1;
        proof {
            assert(soonest(bans.take(1)) == 0);
        }
        while i < self.banned_until.len()
            invariant
                1 <= i <= self.banned_until.len(),
                bans == self.banned_until@,
                at == soonest(bans.take(i as int)),
                at < i,
            decreases self.banned_until.len() - i,
        {
            proof {
                lemma_take_step(bans, i as int);
                assert(bans.take(i as int + 1)[at as int] == bans[at as int]);
            }
            if self.banned_until[i].until < self.banned_until[at].until {
                at = i;
            }
            i += 1;
        }
        proof {
            lemma_take_all(bans);
        }
        at
    }

    /// Bans the hashes of `hashes` from `now` on, for as long as bans last.
    /// A hash that is banned already has its ban renewed. Where more bans
    /// than the rotator remembers result, those that end first are forgotten.
    pub fn ban(&mut self, now: Timestamp, hashes: &[TxHash])
        ensures
            final(self)@ == ban_spec(old(self)@, now, hashes@),
            final(self)@.bans.len() <= final(self)@.capacity,
            old(self).wf() ==> final(self).wf(),
    {
        proof {
            if self.wf() {
                lemma_ban_all_keeps_one_each(
                    self@.bans,
                    hashes@,
                    deadline(now, self@.ban_time),
                );
                lemma_evict_keeps_one_each(
                    ban_all(self@.bans, hashes@, deadline(now, self@.ban_time)),
                    self@.capacity as int,
                );
            }
        }
        let until: Timestamp = now.saturating_add(self.ban_time);
        let ghost start = self.banned_until@;
        let mut i: usize = 0;
        proof {
            assert(hashes@.take(0) =~= Seq::<TxHash>::empty());
        }
        while i < hashes.len()
            invariant
                i <= hashes.len(),
                self.ban_time == old(self).ban_time,
                self.hard_age == old(self).hard_age,
                self.expected_size == old(self).expected_size,
                self.banned_until@ == ban_all(start, hashes@.take(i as int), until),
            decreases hashes.len() - i,
        {
            proof {
                lemma_take_step(hashes@, i as int);
            }
            let entry = Ban { hash: hashes[i], until };
            match self.find(hashes[i]) {
                Some(at) => {
                    self.banned_until.set(at, entry);
                },
                None => {
                    self.banned_until.push(entry);
                },
            }
            i += 1;
        }
        proof {
            lemma_take_all(hashes@);
            lemma_evict_bound(self.banned_until@, self.expected_size as int);
        }
        let ghost goal = evict(self.banned_until@, self.expected_size as int);
        while self.banned_until.len() > self.expected_size
            invariant
                self.ban_time == old(self).ban_time,
                self.hard_age == old(self).hard_age,
                self.expected_size == old(self).expected_size,
                goal == evict(self.banned_until@, self.expected_size as int),
            decreases self.banned_until.len(),
        {
            let at = self.find_soonest();
            self.banned_until.remove(at);
        }
        proof {
            if self.banned_until.len() > 0 {
                lemma_soonest(self.banned_until@);
            }
        }
    }

    /// Bans `tx` at `now` if it is stale at `current_block`, and says whether it was.
    pub fn ban_if_stale(&mut self, now: Timestamp, current_block: BlockNumber, tx: &Transaction) -> (r:
        bool)
        ensures
            r == is_stale(now, current_block, old(self)@.hard_age, tx@),
            final(self)@ == ban_if_stale_spec(old(self)@, now, current_block, tx@),
            old(self).wf() ==> final(self).wf(),
    {
        let aged: bool = now >= tx.source.timestamp && now - tx.source.timestamp > self.hard_age;
        if tx.valid_till < current_block || aged {
            let mut one: Vec<TxHash> = Vec::new();
            one.push(tx.hash);
            proof {
                assert(one@ =~= seq![tx.hash]);
            }
            self.ban(now, one.as_slice());
            true
        } else {
            false
        }
    }

    /// Forgets the bans that have ended at `now`.
    pub fn clear_timeouts(&mut self, now: Timestamp)
        ensures
            final(self)@ == clear_spec(old(self)@, now),
            old(self).wf() ==> final(self).wf(),
    {
        let ghost bans = self.banned_until@;
        let ghost test = in_force(now);
        let mut kept: Vec<Ban> = Vec::new();
        let mut i: usize = 0;
        proof {
            lemma_filter_empty(test);
            assert(bans.take(0) =~= Seq::<Ban>::empty());
        }
        while i < self.banned_until.len()
            invariant
                i <= self.banned_until.len(),
                bans == self.banned_until@,
                test == in_force(now),
                kept@ == bans.take(i as int).filter(test),
                self.ban_time == old(self).ban_time,
                self.hard_age == old(self).hard_age,
                self.expected_size == old(self).expected_size,
            decreases self.banned_until.len() - i,
        {
            proof {
                lemma_filter_step(bans, i as int, test);
            }
            if self.banned_until[i].until > now {
                kept.push(self.banned_until[i]);
            }
            i += 1;
        }
        proof {
            lemma_take_all(bans);
            bans.lemma_filter_len(test);
            if old(self).wf() {
                lemma_filter_keeps_one_each(bans, test);
            }
        }
        self.banned_until = kept;
    }
}

} // verus!
