//! Bringing proofs back into the order in which they were requested.

use vstd::prelude::*;

use std::collections::BTreeMap;

use crate::update::SparseTrieUpdate;

verus! {

/// The first number, from `start` on, that is not a key of `pending`.
pub open spec fn run_end<T>(pending: Map<u64, T>, start: int) -> int
    decreases u64::MAX + 1 - start,
{
    if 0 <= start <= u64::MAX && pending.contains_key(start as u64) {
        run_end(pending, start + 1)
    } else {
        start
    }
}

/// The buffer after the arrival of a proof: one that is still to be delivered is kept, in place of
/// an earlier one with its number; one that was delivered before is dropped.
pub open spec fn buffered<T>(
    pending: Map<u64, T>,
    next_to_deliver: u64,
    sequence: u64,
    update: T,
) -> Map<u64, T> {
    if sequence >= next_to_deliver {
        pending.insert(sequence, update)
    } else {
        pending
    }
}

/// The buffered values with the numbers `start..end`, in order.
pub open spec fn run_values<T>(pending: Map<u64, T>, start: int, end: int) -> Seq<T> {
    Seq::new((end - start) as nat, |i: int| pending[(start + i) as u64])
}

/// The buffer without the numbers `start..end`.
pub open spec fn without_run<T>(pending: Map<u64, T>, start: int, end: int) -> Map<u64, T> {
    pending.remove_keys(Set::new(|k: u64| start <= k < end))
}

/// Handle to track proof calculation ordering
#[derive(Debug)]
pub struct ProofSequencer {
    /// The next proof sequence number to be produced.
    pub next_sequence: u64,
    /// The next sequence number expected to be delivered.
    pub next_to_deliver: u64,
    /// Buffer for out-of-order proofs and corresponding state updates
    pub pending_proofs: BTreeMap<u64, SparseTrieUpdate>,
}

impl Default for ProofSequencer {
    fn default() -> (sequencer: ProofSequencer)
        ensures
            sequencer.next_sequence == 0,
            sequencer.next_to_deliver == 0,
            sequencer.pending_proofs@ == Map::<u64, SparseTrieUpdate>::empty(),
    {
        ProofSequencer { next_sequence: 0, next_to_deliver: 0, pending_proofs: BTreeMap::new() }
    }
}

impl ProofSequencer {
    /// Only numbers beyond the next one to be delivered are buffered.
    pub open spec fn wf(self) -> bool {
        forall|k: u64| #[trigger] self.pending_proofs@.contains_key(k) ==> k > self.next_to_deliver
    }

    /// Once a proof with the number has been added, there is still a number that was not delivered
    /// and is not about to be.
    pub open spec fn has_room(self, sequence: u64) -> bool {
        exists|k: u64|
            self.next_to_deliver <= k && k != sequence
                && !#[trigger] self.pending_proofs@.contains_key(k)
    }

    /// Creates a new proof sequencer
    pub fn new() -> (sequencer: ProofSequencer)
        ensures
            sequencer.wf(),
            sequencer.next_sequence == 0,
            sequencer.next_to_deliver == 0,
            sequencer.pending_proofs@ == Map::<u64, SparseTrieUpdate>::empty(),
    {
        ProofSequencer::default()
    }

    /// Gets the next sequence number and increments the counter
    pub fn next_sequence(&mut self) -> (sequence: u64)
        requires
            old(self).next_sequence < u64::MAX,
        ensures
            sequence == old(self).next_sequence,
            final(self).next_sequence == old(self).next_sequence + 1,
            final(self).next_to_deliver == old(self).next_to_deliver,
            final(self).pending_proofs@ == old(self).pending_proofs@,
    {
        let sequence = self.next_sequence;
        self.next_sequence = self.next_sequence + 1;
        sequence
    }

    /// Adds a proof with the corresponding state update and returns all sequential proofs and state
    /// updates if we have a continuous sequence
    pub fn add_proof(&mut self, sequence: u64, update: SparseTrieUpdate) -> (ready: Vec<
        SparseTrieUpdate,
    >)
        requires
            old(self).has_room(sequence),
        ensures
            ({
                let start = old(self).next_to_deliver as int;
                let buffer = buffered(old(self).pending_proofs@, start as u64, sequence, update);
                let end = run_end(buffer, start);
                &&& ready@ == run_values(buffer, start, end)
                &&& final(self).next_to_deliver == end
                &&& final(self).pending_proofs@ == without_run(buffer, start, end)
                &&& final(self).next_sequence == old(self).next_sequence
            }),
            old(self).wf() ==> final(self).wf(),
    {
        broadcast use vstd::std_specs::btree::group_btree_axioms;

        let ghost start = self.next_to_deliver as int;
        let ghost buffer = buffered(self.pending_proofs@, start as u64, sequence, update);
        let ghost end = run_end(buffer, start);
        if sequence >= self.next_to_deliver {
            self.pending_proofs.insert(sequence, update);
        }
        assert(self.pending_proofs@ == buffer);
        proof {
            lemma_run_end(buffer, start);
            if end == u64::MAX + 1 {
                let k = choose|k: u64|
                    start <= k && k != sequence
                        && !#[trigger] old(self).pending_proofs@.contains_key(k);
                assert(buffer.contains_key(k));
            }
        }

        // return early if we don't have the next expected proof
        if !self.pending_proofs.contains_key(&self.next_to_deliver) {
            assert(end == start);
            let ready: Vec<SparseTrieUpdate> = Vec::new();
            assert(ready@ =~= run_values(buffer, start, end));
            assert(self.pending_proofs@ =~= without_run(buffer, start, end));
            return ready;
        }
        let mut consecutive_proofs: Vec<SparseTrieUpdate> = Vec::with_capacity(
            self.pending_proofs.len(),
        );
        let mut current_sequence = self.next_to_deliver;

        // keep collecting proofs and state updates as long as we have consecutive sequence numbers
        while self.pending_proofs.contains_key(&current_sequence)
            invariant
                start == self.next_to_deliver,
                self.next_sequence == old(self).next_sequence,
                start <= current_sequence <= end <= u64::MAX,
                end == run_end(buffer, start),
                end == run_end(buffer, current_sequence as int),
                self.pending_proofs@ == without_run(buffer, start, current_sequence as int),
                consecutive_proofs@ == run_values(buffer, start, current_sequence as int),
            decreases end - current_sequence,
        {
            broadcast use vstd::std_specs::btree::group_btree_axioms;

            let ghost current = current_sequence as int;
            assert(buffer.contains_key(current_sequence));
            proof {
                lemma_run_end(buffer, current + 1);
            }
            match self.pending_proofs.remove(&current_sequence) {
                Some(pending) => {
                    consecutive_proofs.push(pending);
                    current_sequence = current_sequence + 1;
                },
                None => {},
            }
            assert(self.pending_proofs@ =~= without_run(buffer, start, current + 1));
            assert(consecutive_proofs@ =~= run_values(buffer, start, current + 1));
        }
        self.next_to_deliver = self.next_to_deliver + consecutive_proofs.len() as u64;
        assert(!without_run(buffer, start, current_sequence as int).contains_key(current_sequence));
        assert(current_sequence == end);
        proof {
            if old(self).wf() {
                assert forall|k: u64| #[trigger] self.pending_proofs@.contains_key(k) implies k
                    > self.next_to_deliver by {
                    assert(buffer.contains_key(k));
                    assert(k >= start);
                    assert(!(start <= k < end));
                    assert(k != end as u64);
                }
            }
        }
        consecutive_proofs
    }

    /// Returns true if a proof with the number can be added without running out of numbers.
    pub fn has_room_for(&self, sequence: u64) -> (room: bool)
        ensures
            room == self.has_room(sequence),
    {
        broadcast use vstd::std_specs::btree::group_btree_axioms;

        let mut k: u64 = self.next_to_deliver;
        while k == sequence || self.pending_proofs.contains_key(&k)
            invariant
                self.next_to_deliver <= k,
                forall|j: u64|
                    self.next_to_deliver <= j < k ==> j == sequence
                        || #[trigger] self.pending_proofs@.contains_key(j),
            decreases u64::MAX - k,
        {
            broadcast use vstd::std_specs::btree::group_btree_axioms;

            if k == u64::MAX {
                return false;
            }
            k = k + 1;
        }
        true
    }

    /// Returns true if we still have pending proofs
    pub fn has_pending(&self) -> (pending: bool)
        ensures
            pending == (self.pending_proofs@ != Map::<u64, SparseTrieUpdate>::empty()),
    {
        let empty = self.pending_proofs.is_empty();
        proof {
            if empty {
                assert(self.pending_proofs@ =~= Map::<u64, SparseTrieUpdate>::empty());
            } else {
                assert(!(self.pending_proofs@.dom() =~= Set::<u64>::empty()));
            }
        }
        !empty
    }
}

/// A run starts where it is said to, holds only buffered numbers, and ends before one that is not
/// buffered.
pub proof fn lemma_run_end<T>(pending: Map<u64, T>, start: int)
    ensures
        start <= run_end(pending, start),
        0 <= start <= u64::MAX ==> run_end(pending, start) <= u64::MAX + 1,
        forall|k: u64|
            start <= k < run_end(pending, start) && 0 <= start
                ==> #[trigger] pending.contains_key(k),
        0 <= start && run_end(pending, start) <= u64::MAX ==> !pending.contains_key(
            run_end(pending, start) as u64,
        ),
    decreases u64::MAX + 1 - start,
{
    if 0 <= start <= u64::MAX && pending.contains_key(start as u64) {
        lemma_run_end(pending, start + 1);
        assert forall|k: u64|
            start <= k < run_end(pending, start) implies #[trigger] pending.contains_key(k) by {
            if k != start {
                assert(start + 1 <= k);
            }
        }
    }
}

/// Where a sequencer stands after a row of arrivals.
#[verifier::ext_equal]
pub ghost struct Deliveries<T> {
    /// The next number to be delivered.
    pub next: int,
    /// What is buffered.
    pub pending: Map<u64, T>,
    /// All that was delivered, in the order of delivery.
    pub delivered: Seq<T>,
}

/// Where a new sequencer stands after the proofs of `arrivals` have been added one by one.
pub open spec fn deliveries<T>(arrivals: Seq<(u64, T)>) -> Deliveries<T>
    decreases arrivals.len(),
{
    if arrivals.len() == 0 {
        Deliveries { next: 0, pending: Map::empty(), delivered: Seq::empty() }
    } else {
        let before = deliveries(arrivals.drop_last());
        let (sequence, update) = arrivals.last();
        let buffer = buffered(before.pending, before.next as u64, sequence, update);
        let end = run_end(buffer, before.next);
        Deliveries {
            next: end,
            pending: without_run(buffer, before.next, end),
            delivered: before.delivered + run_values(buffer, before.next, end),
        }
    }
}

/// A proof with the number has arrived.
pub open spec fn arrived<T>(arrivals: Seq<(u64, T)>, sequence: u64) -> bool {
    exists|j: int| 0 <= j < arrivals.len() && (#[trigger] arrivals[j]).0 == sequence
}

/// However the proofs arrive, they are delivered in the order of their numbers, none left out and
/// none twice: what has been delivered at any time is one proof of each number below the next
/// one to be delivered, which has not arrived; and what is buffered are proofs of the greater
/// numbers that have arrived. This holds as long as there is a number that has not arrived.
pub proof fn proofs_are_delivered_in_order<T>(arrivals: Seq<(u64, T)>)
    requires
        exists|k: u64| !#[trigger] arrived(arrivals, k),
    ensures
        ({
            let d = deliveries(arrivals);
            &&& 0 <= d.next <= u64::MAX
            &&& d.delivered.len() == d.next
            &&& forall|i: int|
                0 <= i < d.next ==> arrivals.contains((i as u64, #[trigger] d.delivered[i]))
            &&& !arrived(arrivals, d.next as u64)
            &&& forall|k: u64| #[trigger]
                d.pending.contains_key(k) <==> k > d.next && arrived(arrivals, k)
            &&& forall|k: u64| #[trigger]
                d.pending.contains_key(k) ==> arrivals.contains((k, d.pending[k]))
        }),
    decreases arrivals.len(),
{
    let d = deliveries(arrivals);
    if arrivals.len() > 0 {
        let earlier = arrivals.drop_last();
        let n = arrivals.len() - 1;
        let (sequence, update) = arrivals.last();
        assert(arrivals[n] == (sequence, update));
        let absent = choose|k: u64| !#[trigger] arrived(arrivals, k);
        assert forall|x: (u64, T)| earlier.contains(x) implies arrivals.contains(x) by {
            let j = choose|j: int| 0 <= j < earlier.len() && earlier[j] == x;
            assert(arrivals[j] == x);
        }
        assert(arrivals.contains((sequence, update)));
        assert forall|k: u64| arrived(arrivals, k) <==> arrived(earlier, k) || k == sequence by {
            if arrived(earlier, k) {
                let j = choose|j: int| 0 <= j < earlier.len() && (#[trigger] earlier[j]).0 == k;
                assert(arrivals[j].0 == k);
            }
            if arrived(arrivals, k) {
                let j = choose|j: int| 0 <= j < arrivals.len() && (#[trigger] arrivals[j]).0 == k;
                if j < n {
                    assert(earlier[j].0 == k);
                }
            }
        }
        assert(!arrived(earlier, absent));
        proofs_are_delivered_in_order(earlier);
        let before = deliveries(earlier);
        let buffer = buffered(before.pending, before.next as u64, sequence, update);
        lemma_run_end(buffer, before.next);
        assert(absent >= before.next) by {
            if absent < before.next {
                let x = (absent, before.delivered[absent as int]);
                assert(earlier.contains(x));
                let j = choose|j: int| 0 <= j < earlier.len() && earlier[j] == x;
                assert(earlier[j].0 == absent);
            }
        }
        assert(!buffer.contains_key(absent));
        assert(d.next <= absent);
        assert forall|k: u64| #[trigger] buffer.contains_key(k) implies arrivals.contains(
            (k, buffer[k]),
        ) by {
            if before.pending.contains_key(k) && k != sequence {
                assert(earlier.contains((k, before.pending[k])));
            }
            if before.pending.contains_key(k) && sequence < before.next {
                assert(earlier.contains((k, before.pending[k])));
            }
        }
        assert forall|i: int| 0 <= i < d.next implies arrivals.contains(
            (i as u64, #[trigger] d.delivered[i]),
        ) by {
            if i < before.next {
                assert(d.delivered[i] == before.delivered[i]);
                assert(earlier.contains((i as u64, before.delivered[i])));
            } else {
                assert(buffer.contains_key(i as u64));
                assert(d.delivered[i] == buffer[i as u64]);
            }
        }
        assert forall|k: u64| before.next <= k implies (arrived(arrivals, k)
            <==> #[trigger] buffer.contains_key(k)) by {
            if k == before.next {
                assert(!before.pending.contains_key(k));
            }
        }
        assert(!buffer.contains_key(d.next as u64));
        assert(!arrived(arrivals, d.next as u64));
        assert forall|k: u64| #[trigger] d.pending.contains_key(k) <==> k > d.next && arrived(
            arrivals,
            k,
        ) by {
            if d.pending.contains_key(k) {
                assert(buffer.contains_key(k));
                assert(k >= before.next) by {
                    if before.pending.contains_key(k) {
                        assert(k > before.next);
                    }
                }
                assert(k != d.next);
            }
        }
    }
}

/// Once the proofs of the first `n` numbers have arrived, and no others, all of them have been
/// delivered and nothing is buffered.
pub proof fn complete_arrivals_are_delivered<T>(arrivals: Seq<(u64, T)>, n: u64)
    requires
        forall|j: int| 0 <= j < arrivals.len() ==> (#[trigger] arrivals[j]).0 < n,
        forall|k: u64| k < n ==> #[trigger] arrived(arrivals, k),
    ensures
        deliveries(arrivals).next == n,
        deliveries(arrivals).delivered.len() == n,
        deliveries(arrivals).pending == Map::<u64, T>::empty(),
{
    assert(!arrived(arrivals, n));
    proofs_are_delivered_in_order(arrivals);
    let d = deliveries(arrivals);
    if d.next < n {
        assert(arrived(arrivals, d.next as u64));
    }
    if d.next > n {
        assert(arrivals.contains((n, d.delivered[n as int])));
        let j = choose|j: int|
            0 <= j < arrivals.len() && arrivals[j] == (n, d.delivered[n as int]);
        assert(arrivals[j].0 < n);
    }
    assert forall|k: u64| !d.pending.contains_key(k) by {
        if d.pending.contains_key(k) {
            assert(arrived(arrivals, k));
            let j = choose|j: int| 0 <= j < arrivals.len() && (#[trigger] arrivals[j]).0 == k;
            assert(arrivals[j].0 < n);
        }
    }
    assert(d.pending =~= Map::<u64, T>::empty());
}

/// The order of arrival does not matter: the same proofs, each with a number of its own, lead to
/// the same deliveries and the same buffer.
pub proof fn arrival_order_does_not_matter<T>(a: Seq<(u64, T)>, b: Seq<(u64, T)>)
    requires
        exists|k: u64| !#[trigger] arrived(a, k),
        forall|i: int, j: int|
            0 <= i < j < a.len() ==> (#[trigger] a[i]).0 != (#[trigger] a[j]).0,
        forall|x: (u64, T)| a.contains(x) <==> #[trigger] b.contains(x),
    ensures
        deliveries(a) == deliveries(b),
{
    assert forall|k: u64| arrived(a, k) <==> arrived(b, k) by {
        if arrived(a, k) {
            let j = choose|j: int| 0 <= j < a.len() && (#[trigger] a[j]).0 == k;
            assert(a.contains(a[j]));
            assert(b.contains(a[j]));
            let i = choose|i: int| 0 <= i < b.len() && b[i] == a[j];
            assert(b[i].0 == k);
        }
        if arrived(b, k) {
            let j = choose|j: int| 0 <= j < b.len() && (#[trigger] b[j]).0 == k;
            assert(b.contains(b[j]));
            let i = choose|i: int| 0 <= i < a.len() && a[i] == b[j];
            assert(a[i].0 == k);
        }
    }
    assert forall|k: u64, x: T, y: T| a.contains((k, x)) && b.contains((k, y)) implies x == y by {
        assert(a.contains((k, y)));
        let i = choose|i: int| 0 <= i < a.len() && a[i] == (k, x);
        let j = choose|j: int| 0 <= j < a.len() && a[j] == (k, y);
        if i < j {
            assert(a[i].0 != a[j].0);
        }
        if j < i {
            assert(a[j].0 != a[i].0);
        }
    }
    let absent = choose|k: u64| !#[trigger] arrived(a, k);
    assert(!arrived(b, absent));
    proofs_are_delivered_in_order(a);
    proofs_are_delivered_in_order(b);
    let d = deliveries(a);
    let e = deliveries(b);
    if d.next < e.next {
        let x = (d.next as u64, e.delivered[d.next]);
        assert(b.contains(x));
        let j = choose|j: int| 0 <= j < b.len() && b[j] == x;
        assert(b[j].0 == d.next as u64);
        assert(arrived(b, d.next as u64));
    }
    if e.next < d.next {
        let x = (e.next as u64, d.delivered[e.next]);
        assert(a.contains(x));
        let j = choose|j: int| 0 <= j < a.len() && a[j] == x;
        assert(a[j].0 == e.next as u64);
        assert(arrived(a, e.next as u64));
    }
    assert(d.next == e.next);
    assert forall|i: int| 0 <= i < d.next implies d.delivered[i] == e.delivered[i] by {
        assert(a.contains((i as u64, d.delivered[i])));
        assert(b.contains((i as u64, e.delivered[i])));
    }
    assert(d.delivered =~= e.delivered);
    assert forall|k: u64| d.pending.contains_key(k) implies d.pending[k] == e.pending[k] by {
        assert(e.pending.contains_key(k));
        assert(a.contains((k, d.pending[k])));
        assert(b.contains((k, e.pending[k])));
    }
    assert(d.pending =~= e.pending);
    assert(d =~= e);
}

/// A proof whose number was delivered before changes nothing and delivers nothing.
pub proof fn late_proof_is_dropped(
    sequencer: ProofSequencer,
    sequence: u64,
    update: SparseTrieUpdate,
)
    requires
        sequencer.wf(),
        sequence < sequencer.next_to_deliver,
    ensures
        ({
            let start = sequencer.next_to_deliver as int;
            let buffer = buffered(
                sequencer.pending_proofs@,
                sequencer.next_to_deliver,
                sequence,
                update,
            );
            let end = run_end(buffer, start);
            &&& end == start
            &&& run_values(buffer, start, end) == Seq::<SparseTrieUpdate>::empty()
            &&& without_run(buffer, start, end) == sequencer.pending_proofs@
        }),
{
    let start = sequencer.next_to_deliver as int;
    let buffer = sequencer.pending_proofs@;
    assert(!buffer.contains_key(sequencer.next_to_deliver));
    assert(run_values(buffer, start, start) =~= Seq::<SparseTrieUpdate>::empty());
    assert(without_run(buffer, start, start) =~= buffer);
}

/// Of two proofs of one number the later one counts, as long as none was delivered: a proof that
/// comes in before its number was delivered is the one that is delivered or buffered under it, and
/// the proofs of other numbers are left as they are.
pub proof fn the_later_proof_of_a_number_counts<T>(arrivals: Seq<(u64, T)>)
    requires
        arrivals.len() > 0,
        exists|k: u64| !#[trigger] arrived(arrivals, k),
        deliveries(arrivals.drop_last()).next <= arrivals.last().0,
    ensures
        ({
            let before = deliveries(arrivals.drop_last());
            let after = deliveries(arrivals);
            let (sequence, update) = arrivals.last();
            &&& sequence < after.next ==> after.delivered[sequence as int] == update
            &&& sequence >= after.next ==> after.pending.contains_key(sequence)
                && after.pending[sequence] == update
            &&& forall|i: int|
                0 <= i < before.next ==> #[trigger] after.delivered[i] == before.delivered[i]
            &&& forall|k: u64| #[trigger]
                before.pending.contains_key(k) && k != sequence ==> {
                    &&& k < after.next ==> after.delivered[k as int] == before.pending[k]
                    &&& k >= after.next ==> after.pending.contains_key(k) && after.pending[k]
                        == before.pending[k]
                }
        }),
{
    let earlier = arrivals.drop_last();
    let before = deliveries(earlier);
    let (sequence, update) = arrivals.last();
    let absent = choose|k: u64| !#[trigger] arrived(arrivals, k);
    assert(!arrived(earlier, absent)) by {
        if arrived(earlier, absent) {
            let j = choose|j: int| 0 <= j < earlier.len() && (#[trigger] earlier[j]).0 == absent;
            assert(arrivals[j].0 == absent);
        }
    }
    proofs_are_delivered_in_order(earlier);
    proofs_are_delivered_in_order(arrivals);
    let buffer = buffered(before.pending, before.next as u64, sequence, update);
    lemma_run_end(buffer, before.next);
    assert(buffer.contains_key(sequence) && buffer[sequence] == update);
}

/// There is room for a proof exactly if, once it has been added, there is still a number that is
/// the next one to be delivered.
pub proof fn there_is_room_unless_the_numbers_run_out(
    sequencer: ProofSequencer,
    sequence: u64,
    update: SparseTrieUpdate,
)
    ensures
        sequencer.has_room(sequence) <==> run_end(
            buffered(
                sequencer.pending_proofs@,
                sequencer.next_to_deliver,
                sequence,
                update,
            ),
            sequencer.next_to_deliver as int,
        ) <= u64::MAX,
{
    let start = sequencer.next_to_deliver as int;
    let buffer = buffered(
        sequencer.pending_proofs@,
        sequencer.next_to_deliver,
        sequence,
        update,
    );
    let end = run_end(buffer, start);
    lemma_run_end(buffer, start);
    if sequencer.has_room(sequence) {
        let k = choose|k: u64|
            sequencer.next_to_deliver <= k && k != sequence
                && !#[trigger] sequencer.pending_proofs@.contains_key(k);
        assert(!buffer.contains_key(k));
    }
    if end <= u64::MAX {
        assert(!buffer.contains_key(end as u64));
        assert(!sequencer.pending_proofs@.contains_key(end as u64));
    }
}

} // verus!
