//! One sender: when it submits its next transaction, and with which nonce.
use vstd::prelude::*;

verus! {

/// How many transactions may have been sent beyond those seen in blocks before the senders
/// hold back.
pub const POOL_LIMIT: u64 = 12_000;

/// How long a sender that holds back pauses before it looks again, in milliseconds.
pub const PAUSE_MS: u64 = 10;

/// How many units of the currency one transaction transfers.
pub const TRANSFER_AMOUNT: u128 = 1;

/// A call that transfers an amount to an account.
#[derive(Debug, PartialEq, Eq)]
pub struct TransferCall {
    /// The pallet that handles the call.
    pub pallet: String,
    /// The call's name.
    pub call: String,
    /// How the receiver is addressed.
    pub address: String,
    /// The receiver's public key.
    pub receiver: Vec<u8>,
    /// The amount that is transferred.
    pub amount: u128,
}

/// Returns the call that a sender submits for its receiver.
pub fn transfer_call(receiver: &[u8]) -> (call: TransferCall)
    ensures
        call.pallet@ == "Balances"@,
        call.call@ == "transfer_keep_alive"@,
        call.address@ == "Id"@,
        call.receiver@ == receiver@,
        call.amount == TRANSFER_AMOUNT,
        call.amount == 1,
{
    TransferCall {
        pallet: "Balances".to_owned(),
        call: "transfer_keep_alive".to_owned(),
        address: "Id".to_owned(),
        receiver: vstd::slice::slice_to_vec(receiver),
        amount: TRANSFER_AMOUNT,
    }
}

/// What a sender is waiting for.
#[derive(Clone, Copy, Debug, PartialEq, Eq, Structural)]
pub enum Phase {
    /// For the counters of all senders.
    Checking,
    /// For the node's answer to a transaction.
    Submitting,
    /// For the nonce that the best block holds.
    Refreshing,
}

/// What happens to a sender.
#[derive(Clone, Copy, Debug, PartialEq, Eq, Structural)]
pub enum Event {
    /// The counters were read: transactions sent, and transactions seen in blocks.
    Counters { sent: u64, in_block: u64 },
    /// The node took the transaction, so long after its submission began.
    Accepted { elapsed_ms: u128 },
    /// The node refused the transaction.
    Rejected,
    /// The account's nonce was fetched, so long after the refused submission began.
    Nonce { nonce: u64, elapsed_ms: u128 },
}

/// What a sender does next.
#[derive(Clone, Copy, Debug, PartialEq, Eq, Structural)]
pub enum Action {
    /// Sleep, then read the counters.
    Pause { ms: u64 },
    /// Sleep, then submit a transaction with this nonce.
    Submit { wait_ms: u64, nonce: u64 },
    /// Add one to the transactions sent, then read the counters.
    CountSent,
    /// Fetch the account's nonce at the best block.
    FetchNonce,
    /// Read the counters.
    Check,
}

/// A sender.
#[derive(Clone, Copy, Debug, PartialEq, Eq, Structural)]
pub struct Worker {
    pub phase: Phase,
    /// The time between two of its transactions, in milliseconds.
    pub worker_sleep: u64,
    /// How much of that time is left.
    pub sleep_time_ms: u64,
    /// The nonce of its next transaction.
    pub nonce: u64,
}

/// Whether the senders hold back.
pub open spec fn over_limit(sent: u64, in_block: u64) -> bool {
    sent > in_block + POOL_LIMIT
}

/// `a - b`, or zero where `b` is larger.
pub open spec fn monus(a: int, b: int) -> int {
    if a > b {
        a - b
    } else {
        0
    }
}

/// What is left of `worker_sleep` after a time in milliseconds, of which the lowest 64 bits
/// count.
pub open spec fn time_left(worker_sleep: u64, elapsed_ms: u128) -> u64 {
    monus(worker_sleep as int, elapsed_ms as int % 0x1_0000_0000_0000_0000) as u64
}

impl Worker {
    /// No more time is left than there is between two transactions.
    pub open spec fn wf(self) -> bool {
        self.sleep_time_ms <= self.worker_sleep
    }

    /// Whether this event can happen to the sender as it is. The counters and the nonce must
    /// leave room for what is added to them.
    pub open spec fn accepts(self, event: Event) -> bool {
        match event {
            Event::Counters { sent, in_block } => self.phase == Phase::Checking && in_block
                + POOL_LIMIT <= u64::MAX,
            Event::Accepted { elapsed_ms } => self.phase == Phase::Submitting && self.nonce
                < u64::MAX,
            Event::Rejected => self.phase == Phase::Submitting,
            Event::Nonce { nonce, elapsed_ms } => self.phase == Phase::Refreshing,
        }
    }

    /// The sender after an event, and what it does then.
    pub open spec fn next(self, event: Event) -> (Worker, Action) {
        match event {
            Event::Counters { sent, in_block } => if over_limit(sent, in_block) {
                (
                    Worker {
                        sleep_time_ms: monus(self.sleep_time_ms as int, PAUSE_MS as int) as u64,
                        ..self
                    },
                    Action::Pause { ms: PAUSE_MS },
                )
            } else {
                (
                    Worker { phase: Phase::Submitting, ..self },
                    Action::Submit { wait_ms: self.sleep_time_ms, nonce: self.nonce },
                )
            },
            Event::Accepted { elapsed_ms } => (
                Worker {
                    phase: Phase::Checking,
                    sleep_time_ms: time_left(self.worker_sleep, elapsed_ms),
                    nonce: (self.nonce + 1) as u64,
                    ..self
                },
                Action::CountSent,
            ),
            Event::Rejected => (
                Worker { phase: Phase::Refreshing, ..self },
                Action::FetchNonce,
            ),
            Event::Nonce { nonce, elapsed_ms } => (
                Worker {
                    phase: Phase::Checking,
                    sleep_time_ms: time_left(self.worker_sleep, elapsed_ms),
                    nonce,
                    ..self
                },
                Action::Check,
            ),
        }
    }

    /// Whether these events can happen to the sender one after the other.
    pub open spec fn accepts_all(self, events: Seq<Event>) -> bool
        decreases events.len(),
    {
        if events.len() == 0 {
            true
        } else {
            self.accepts_all(events.drop_last()) && self.run(events.drop_last()).accepts(
                events.last(),
            )
        }
    }

    /// The sender after these events.
    pub open spec fn run(self, events: Seq<Event>) -> Worker
        decreases events.len(),
    {
        if events.len() == 0 {
            self
        } else {
            self.run(events.drop_last()).next(events.last()).0
        }
    }

    /// A sender that has the whole of its first wait behind it.
    pub open spec fn fresh(worker_sleep: u64, nonce: u64) -> Worker {
        Worker { phase: Phase::Checking, worker_sleep, sleep_time_ms: 0, nonce }
    }

    /// Returns a sender that has the whole of its first wait behind it.
    pub fn new(worker_sleep: u64, nonce: u64) -> (worker: Worker)
        ensures
            worker == Worker::fresh(worker_sleep, nonce),
            worker.phase == Phase::Checking,
            worker.worker_sleep == worker_sleep,
            worker.sleep_time_ms == 0,
            worker.nonce == nonce,
            worker.wf(),
    {
        Worker { phase: Phase::Checking, worker_sleep, sleep_time_ms: 0, nonce }
    }

    /// Takes in what happened, and returns what the sender does next.
    pub fn step(&mut self, event: Event) -> (action: Action)
        requires
            old(self).accepts(event),
        ensures
            (*final(self), action) == old(self).next(event),
            old(self).wf() ==> final(self).wf(),
    {
        match event {
            Event::Counters { sent, in_block } => {
                if sent > in_block + POOL_LIMIT {
                    self.sleep_time_ms = self.sleep_time_ms.saturating_sub(PAUSE_MS);
                    Action::Pause { ms: PAUSE_MS }
                } else {
                    self.phase = Phase::Submitting;
                    Action::Submit { wait_ms: self.sleep_time_ms, nonce: self.nonce }
                }
            },
            Event::Accepted { elapsed_ms } => {
                self.sleep_time_ms = sleep_left(self.worker_sleep, elapsed_ms);
                self.nonce = self.nonce + 1;
                self.phase = Phase::Checking;
                Action::CountSent
            },
            Event::Rejected => {
                self.phase = Phase::Refreshing;
                Action::FetchNonce
            },
            Event::Nonce { nonce, elapsed_ms } => {
                self.sleep_time_ms = sleep_left(self.worker_sleep, elapsed_ms);
                self.nonce = nonce;
                self.phase = Phase::Checking;
                Action::Check
            },
        }
    }
}

/// Returns what is left of `worker_sleep` after a time in milliseconds.
fn sleep_left(worker_sleep: u64, elapsed_ms: u128) -> (ms: u64)
    ensures
        ms == time_left(worker_sleep, elapsed_ms),
        ms <= worker_sleep,
{
    worker_sleep.saturating_sub((elapsed_ms % 0x1_0000_0000_0000_0000) as u64)
}

/// A sender submits only after it has found that the senders need not hold back.
pub proof fn law_submits_only_below_limit(worker: Worker, event: Event)
    requires
        worker.accepts(event),
        worker.next(event).1 is Submit,
    ensures
        event matches Event::Counters { sent, in_block } && sent <= in_block + POOL_LIMIT,
{
}

/// Whatever happens to a sender, it never waits longer for its next transaction than the time
/// between two transactions, and that time stays what it was.
pub proof fn law_wait_is_bounded(worker: Worker, events: Seq<Event>)
    requires
        worker.wf(),
        worker.accepts_all(events),
    ensures
        worker.run(events).wf(),
        worker.run(events).worker_sleep == worker.worker_sleep,
        events.len() > 0 ==> (worker.run(events.drop_last()).next(
            events.last(),
        ).1 matches Action::Submit { wait_ms, nonce } ==> wait_ms <= worker.worker_sleep),
    decreases events.len(),
{
    if events.len() > 0 {
        law_wait_is_bounded(worker, events.drop_last());
    }
}

/// Whether a sender that reads these counters holds back.
pub open spec fn holds_back(event: Event) -> bool {
    event matches Event::Counters { sent, in_block } && over_limit(sent, in_block)
}

/// The pauses of a sender that holds back come off its wait: all its pauses together with the
/// wait that follows last as long as the wait alone would have, or as long as the pauses do
/// where they are longer. Its nonce stays what it was.
pub proof fn law_pauses_come_off_the_wait(worker: Worker, pauses: Seq<Event>)
    requires
        worker.phase == Phase::Checking,
        worker.accepts_all(pauses),
        forall|i: int| 0 <= i < pauses.len() ==> holds_back(#[trigger] pauses[i]),
    ensures
        ({
            let later = worker.run(pauses);
            let paused = PAUSE_MS * pauses.len();
            &&& later.phase == Phase::Checking
            &&& later.nonce == worker.nonce
            &&& later.worker_sleep == worker.worker_sleep
            &&& paused + later.sleep_time_ms == if paused > worker.sleep_time_ms {
                paused
            } else {
                worker.sleep_time_ms as int
            }
        }),
    decreases pauses.len(),
{
    if pauses.len() > 0 {
        let before = pauses.drop_last();
        assert forall|i: int| 0 <= i < before.len() implies holds_back(#[trigger] before[i]) by {
            assert(before[i] == pauses[i]);
        }
        law_pauses_come_off_the_wait(worker, before);
        assert(holds_back(pauses[pauses.len() - 1]));
    }
}

/// Number of transactions that the node took.
pub open spec fn accepted(events: Seq<Event>) -> nat {
    events.filter(|event: Event| event is Accepted).len()
}

/// Until a nonce is fetched anew, the nonce of a sender's next transaction is the one it
/// started with plus the number of transactions that the node has taken since: no nonce is left
/// out or used for two of them.
pub proof fn law_nonces_are_consecutive(worker: Worker, events: Seq<Event>)
    requires
        worker.accepts_all(events),
        forall|i: int| 0 <= i < events.len() ==> !(#[trigger] events[i] is Nonce),
    ensures
        worker.run(events).nonce == worker.nonce + accepted(events),
    decreases events.len(),
{
    reveal(Seq::filter);
    if events.len() > 0 {
        let before = events.drop_last();
        assert forall|i: int| 0 <= i < before.len() implies !(#[trigger] before[i] is Nonce) by {
            assert(before[i] == events[i]);
        }
        law_nonces_are_consecutive(worker, before);
        assert(!(events[events.len() - 1] is Nonce));
    }
}

/// After a refusal the sender starts again from the nonce that is fetched then: the next
/// transaction takes it, however often the sender holds back before.
pub proof fn law_refusal_restarts_from_fetched_nonce(
    worker: Worker,
    nonce: u64,
    elapsed_ms: u128,
    pauses: Seq<Event>,
    sent: u64,
    in_block: u64,
)
    requires
        worker.accepts(Event::Rejected),
        forall|i: int| 0 <= i < pauses.len() ==> holds_back(#[trigger] pauses[i]),
        ({
            let fresh = worker.next(Event::Rejected).0.next(
                Event::Nonce { nonce, elapsed_ms },
            ).0;
            fresh.accepts_all(pauses)
        }),
        in_block + POOL_LIMIT <= u64::MAX,
        !over_limit(sent, in_block),
    ensures
        worker.next(Event::Rejected).1 == Action::FetchNonce,
        ({
            let fresh = worker.next(Event::Rejected).0.next(
                Event::Nonce { nonce, elapsed_ms },
            ).0;
            let ready = fresh.run(pauses);
            &&& ready.accepts(Event::Counters { sent, in_block })
            &&& ready.next(Event::Counters { sent, in_block }).1 == (Action::Submit {
                wait_ms: ready.sleep_time_ms,
                nonce,
            })
        }),
{
    let fresh = worker.next(Event::Rejected).0.next(Event::Nonce { nonce, elapsed_ms }).0;
    law_pauses_come_off_the_wait(fresh, pauses);
}

/// Number of senders that wait for the node's answer to a transaction.
pub open spec fn submitting(workers: Seq<Worker>) -> nat
    decreases workers.len(),
{
    if workers.len() == 0 {
        0
    } else {
        submitting(workers.drop_last()) + if workers.last().phase == Phase::Submitting {
            1nat
        } else {
            0
        }
    }
}

proof fn lemma_submitting_update(workers: Seq<Worker>, i: int, worker: Worker)
    requires
        0 <= i < workers.len(),
    ensures
        submitting(workers.update(i, worker)) + (if workers[i].phase == Phase::Submitting {
            1int
        } else {
            0
        }) == submitting(workers) + (if worker.phase == Phase::Submitting {
            1int
        } else {
            0
        }),
        submitting(workers) <= workers.len(),
    decreases workers.len(),
{
    let rest = workers.drop_last();
    let updated = workers.update(i, worker);
    if i == workers.len() - 1 {
        assert(updated.drop_last() =~= rest);
        if rest.len() > 0 {
            lemma_submitting_update(rest, 0, rest[0]);
        }
    } else {
        assert(updated.drop_last() =~= rest.update(i, worker));
        lemma_submitting_update(rest, i, worker);
    }
}

/// Whether the transactions that were sent or are under way exceed those seen in blocks by no
/// more than the limit and one for each sender.
pub open spec fn near_limit(workers: Seq<Worker>, sent: u64, in_block: u64) -> bool {
    sent + submitting(workers) <= in_block + POOL_LIMIT + workers.len()
}

/// However many senders share the two counters, what is under way stays near the limit: a step
/// of any sender, which reads the counters as they are and adds what it counts, keeps it there,
/// and so does a block that adds to the transactions seen.
pub proof fn law_senders_stay_near_the_limit(
    workers: Seq<Worker>,
    sent: u64,
    in_block: u64,
    i: int,
    event: Event,
    more_in_block: u64,
)
    requires
        near_limit(workers, sent, in_block),
        0 <= i < workers.len(),
        workers[i].accepts(event),
        event matches Event::Counters { sent: s, in_block: b } ==> s == sent && b == in_block,
        sent < u64::MAX,
        in_block <= more_in_block,
    ensures
        ({
            let (worker, action) = workers[i].next(event);
            let sent_after = if action == Action::CountSent {
                (sent + 1) as u64
            } else {
                sent
            };
            near_limit(workers.update(i, worker), sent_after, in_block)
        }),
        near_limit(workers, sent, more_in_block),
{
    let worker = workers[i].next(event).0;
    lemma_submitting_update(workers, i, worker);
    lemma_submitting_update(workers.update(i, worker), i, worker);
}

/// Once both counters are set to zero, any senders are near the limit.
pub proof fn law_fresh_counters_are_near_the_limit(workers: Seq<Worker>)
    ensures
        near_limit(workers, 0, 0),
{
    if workers.len() > 0 {
        lemma_submitting_update(workers, 0, workers[0]);
    }
}

/// A sender that reads the counters submits at once with what is left of its wait where no more
/// than 12000 transactions were sent beyond those seen in blocks, however many were sent in all;
/// beyond that it pauses for 10 ms, which come off its wait, and reads the counters again.
pub proof fn law_counters_decide(worker: Worker, sent: u64, in_block: u64)
    requires
        worker.phase == Phase::Checking,
        in_block + 12_000 <= u64::MAX,
    ensures
        ({
            let event = Event::Counters { sent, in_block };
            let (later, action) = worker.next(event);
            &&& worker.accepts(event)
            &&& sent - in_block <= 12_000 ==> {
                &&& action == (Action::Submit {
                    wait_ms: worker.sleep_time_ms,
                    nonce: worker.nonce,
                })
                &&& later == (Worker { phase: Phase::Submitting, ..worker })
            }
            &&& sent - in_block > 12_000 ==> {
                &&& action == (Action::Pause { ms: 10 })
                &&& later.phase == Phase::Checking
                &&& later.nonce == worker.nonce
                &&& later.worker_sleep == worker.worker_sleep
                &&& worker.sleep_time_ms >= 10 ==> later.sleep_time_ms + 10
                    == worker.sleep_time_ms
                &&& worker.sleep_time_ms < 10 ==> later.sleep_time_ms == 0
            }
        }),
{
}

/// A transaction that the node took after `e` milliseconds is counted once, the next one takes
/// the next nonce, and `e` together with the wait that is left lasts as long as the time between
/// two transactions, or as long as `e` where that is longer.
pub proof fn law_accepted_keeps_the_pace(worker: Worker, e: u64)
    requires
        worker.phase == Phase::Submitting,
        worker.nonce < u64::MAX,
    ensures
        ({
            let event = Event::Accepted { elapsed_ms: e as u128 };
            let (later, action) = worker.next(event);
            &&& worker.accepts(event)
            &&& action == Action::CountSent
            &&& later.phase == Phase::Checking
            &&& later.nonce == worker.nonce + 1
            &&& later.worker_sleep == worker.worker_sleep
            &&& e <= worker.worker_sleep ==> later.sleep_time_ms + e == worker.worker_sleep
            &&& e > worker.worker_sleep ==> later.sleep_time_ms == 0
        }),
{
    assert(e as int % 0x1_0000_0000_0000_0000 == e);
}

/// A refused transaction is not counted and its nonce is not used up: the sender fetches its
/// nonce, sends with the one it gets, and waits as it does after a transaction that was taken.
pub proof fn law_refused_keeps_the_pace(worker: Worker, nonce: u64, e: u64)
    requires
        worker.phase == Phase::Submitting,
    ensures
        worker.accepts(Event::Rejected),
        worker.next(Event::Rejected).1 == Action::FetchNonce,
        worker.next(Event::Rejected).0 == (Worker { phase: Phase::Refreshing, ..worker }),
        ({
            let fetching = worker.next(Event::Rejected).0;
            let event = Event::Nonce { nonce, elapsed_ms: e as u128 };
            let (later, action) = fetching.next(event);
            &&& fetching.accepts(event)
            &&& action == Action::Check
            &&& later.phase == Phase::Checking
            &&& later.nonce == nonce
            &&& later.worker_sleep == worker.worker_sleep
            &&& e <= worker.worker_sleep ==> later.sleep_time_ms + e == worker.worker_sleep
            &&& e > worker.worker_sleep ==> later.sleep_time_ms == 0
        }),
{
    assert(e as int % 0x1_0000_0000_0000_0000 == e);
}

/// Of a time of `2^64` milliseconds or more, the lowest 64 bits count.
pub proof fn law_time_counts_by_its_lowest_bits(worker: Worker, nonce: u64, elapsed_ms: u128)
    ensures
        ({
            let low = (elapsed_ms as int % 0x1_0000_0000_0000_0000) as u128;
            &&& worker.next(Event::Accepted { elapsed_ms }) == worker.next(
                Event::Accepted { elapsed_ms: low },
            )
            &&& worker.next(Event::Nonce { nonce, elapsed_ms }) == worker.next(
                Event::Nonce { nonce, elapsed_ms: low },
            )
        }),
{
    let m = elapsed_ms as int % 0x1_0000_0000_0000_0000;
    assert(m % 0x1_0000_0000_0000_0000 == m);
}

/// While a sender holds back it keeps its nonce, and each pause takes 10 ms off its wait.
proof fn lemma_pauses(worker: Worker, pauses: Seq<Event>)
    requires
        worker.phase == Phase::Checking,
        forall|i: int|
            0 <= i < pauses.len() ==> (#[trigger] pauses[i] matches Event::Counters {
                sent,
                in_block,
            } && in_block + 12_000 <= u64::MAX && sent > in_block + 12_000),
    ensures
        worker.accepts_all(pauses),
        worker.run(pauses).phase == Phase::Checking,
        worker.run(pauses).nonce == worker.nonce,
        worker.run(pauses).worker_sleep == worker.worker_sleep,
        10 * pauses.len() + worker.run(pauses).sleep_time_ms == if 10 * pauses.len()
            > worker.sleep_time_ms {
            10 * pauses.len() as int
        } else {
            worker.sleep_time_ms as int
        },
    decreases pauses.len(),
{
    if pauses.len() > 0 {
        let before = pauses.drop_last();
        assert forall|i: int| 0 <= i < before.len() implies (
        #[trigger] before[i] matches Event::Counters { sent, in_block } && in_block + 12_000
            <= u64::MAX && sent > in_block + 12_000) by {
            assert(before[i] == pauses[i]);
        }
        lemma_pauses(worker, before);
        match pauses[pauses.len() - 1] {
            Event::Counters { sent, in_block } => {
                law_counters_decide(worker.run(before), sent, in_block);
            },
            _ => {},
        }
    }
}

/// From the start of one transaction to the start of the next one passes the time between two
/// transactions, neither more nor less, unless the node's answer and the pauses of a sender that
/// holds back take longer by themselves: then the next one follows at once. It takes the next
/// nonce.
pub proof fn law_transactions_keep_their_distance(
    worker: Worker,
    e: u64,
    pauses: Seq<Event>,
    sent: u64,
    in_block: u64,
)
    requires
        worker.phase == Phase::Submitting,
        worker.nonce < u64::MAX,
        forall|i: int|
            0 <= i < pauses.len() ==> (#[trigger] pauses[i] matches Event::Counters {
                sent: s,
                in_block: b,
            } && b + 12_000 <= u64::MAX && s > b + 12_000),
        in_block + 12_000 <= u64::MAX,
        sent <= in_block + 12_000,
    ensures
        ({
            let ready = worker.next(Event::Accepted { elapsed_ms: e as u128 }).0.run(pauses);
            let busy = e + 10 * pauses.len();
            ready.next(Event::Counters { sent, in_block }).1 matches Action::Submit {
                wait_ms,
                nonce,
            } && nonce == worker.nonce + 1 && busy + wait_ms == if busy > worker.worker_sleep {
                busy
            } else {
                worker.worker_sleep as int
            }
        }),
{
    let resting = worker.next(Event::Accepted { elapsed_ms: e as u128 }).0;
    law_accepted_keeps_the_pace(worker, e);
    lemma_pauses(resting, pauses);
    law_counters_decide(resting.run(pauses), sent, in_block);
}

/// Two senders that differ in the nonce alone do the same at the same times.
pub proof fn law_nonce_does_not_change_the_pace(
    worker: Worker,
    nonce: u64,
    sent: u64,
    in_block: u64,
)
    ensures
        ({
            let other = Worker { nonce, ..worker };
            let event = Event::Counters { sent, in_block };
            &&& other.next(event).0 == (Worker { nonce, ..worker.next(event).0 })
            &&& worker.next(event).1 matches Action::Submit { wait_ms, nonce: n }
                ==> other.next(event).1 == (Action::Submit { wait_ms, nonce })
            &&& worker.next(event).1 is Pause ==> other.next(event).1 == worker.next(event).1
        }),
{
}

/// A new sender sends its first transaction without a wait, with the nonce that it was given,
/// and its second one, with the next nonce, a whole wait after the first.
pub proof fn law_new_sender_sends_at_once(
    worker_sleep: u64,
    nonce: u64,
    e: u64,
    sent: u64,
    in_block: u64,
)
    requires
        nonce < u64::MAX,
        e <= worker_sleep,
        in_block + 12_000 <= u64::MAX,
        sent <= in_block + 12_000,
    ensures
        ({
            let counters = Event::Counters { sent, in_block };
            let (submitting, first) = Worker::fresh(worker_sleep, nonce).next(counters);
            let checking = submitting.next(Event::Accepted { elapsed_ms: e as u128 }).0;
            &&& Worker::fresh(worker_sleep, nonce).wf()
            &&& first == (Action::Submit { wait_ms: 0, nonce })
            &&& checking.next(counters).1 == (Action::Submit {
                wait_ms: (worker_sleep - e) as u64,
                nonce: (nonce + 1) as u64,
            })
        }),
{
    let fresh = Worker::fresh(worker_sleep, nonce);
    law_counters_decide(fresh, sent, in_block);
    let submitting = fresh.next(Event::Counters { sent, in_block }).0;
    law_accepted_keeps_the_pace(submitting, e);
    let checking = submitting.next(Event::Accepted { elapsed_ms: e as u128 }).0;
    law_counters_decide(checking, sent, in_block);
}

} // verus!
