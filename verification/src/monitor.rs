//! The watch over the chain's best blocks: what is read next, what is counted, and when all
//! senders start anew.
use crate::block::{
    law_calls_are_told_by_both_names, law_count_at_most_entries, law_count_is_number_of_transfers,
    law_each_transfer_counts_once, tx_count, BlockClock, BlockError, Extrinsic,
};
use vstd::prelude::*;

verus! {

/// Number of rounds after which the senders start anew.
pub const ROUNDS: u32 = 10;

/// How long to wait before a failed subscription is tried again, in milliseconds.
pub const RETRY_MS: u64 = 500;

/// What the monitor is waiting for.
#[derive(Clone, Copy, Debug, PartialEq, Eq, Structural)]
pub enum Phase {
    /// For the next best block.
    Listening,
    /// For a new subscription to the best blocks.
    Subscribing,
    /// For the extrinsics of the block that was kept last.
    Reading,
}

/// What happens to the monitor.
#[derive(Debug, PartialEq, Eq)]
pub enum Event {
    /// A new best block came.
    Block,
    /// The subscription failed or ended.
    Lost,
    /// There is a new subscription.
    Subscribed,
    /// There is no new subscription.
    SubscribeFailed,
    /// The extrinsics of the block were read; `None` stands for one that cannot be decoded.
    Extrinsics(Vec<Option<Extrinsic>>),
    /// The extrinsics of the block could not be read.
    Unreadable,
}

/// How a round ends.
#[derive(Clone, Copy, Debug, PartialEq, Eq, Structural)]
pub enum RoundEnd {
    /// Wait for the next best block.
    Listen,
    /// Stop all senders, set both counters to zero, start the senders again, and only then wait
    /// for the next best block.
    Restart,
}

/// What the monitor does next.
#[derive(Clone, Copy, Debug, PartialEq, Eq, Structural)]
pub enum Action {
    /// Keep the new block in place of the one before, and read its extrinsics.
    KeepAndRead,
    /// Read the extrinsics of the block that was kept last.
    Read,
    /// Subscribe to the best blocks.
    Subscribe,
    /// Sleep, then subscribe to the best blocks.
    SubscribeAfter { ms: u64 },
    /// Add this number to the transactions seen in blocks and report it, then end the round.
    Count { tx_count: u64, end: RoundEnd },
    /// End the round.
    Skip { end: RoundEnd },
}

/// The watch over the best blocks.
#[derive(Clone, Copy, Debug, PartialEq, Eq, Structural)]
pub struct Monitor {
    pub phase: Phase,
    /// Number of rounds since the senders were started.
    pub round: u32,
    /// The chain's time; it is not set back when the senders start anew.
    pub clock: BlockClock,
}

/// Whether an event ends a round.
pub open spec fn ends_round(event: Event) -> bool {
    event is Extrinsics || event is Unreadable
}

impl Monitor {
    /// The senders have not yet been due to start anew.
    pub open spec fn wf(self) -> bool {
        self.round < ROUNDS
    }

    /// Whether the monitor waits for an event like this one.
    pub open spec fn awaits(self, event: Event) -> bool {
        match event {
            Event::Block | Event::Lost => self.phase == Phase::Listening,
            Event::Subscribed | Event::SubscribeFailed => self.phase == Phase::Subscribing,
            Event::Extrinsics(_) | Event::Unreadable => self.phase == Phase::Reading,
        }
    }

    /// How the round that is under way ends.
    pub open spec fn round_end(self) -> RoundEnd {
        if self.round + 1 == ROUNDS {
            RoundEnd::Restart
        } else {
            RoundEnd::Listen
        }
    }

    /// The monitor at the start of the next round, with this clock.
    pub open spec fn next_round(self, clock: BlockClock) -> Monitor {
        Monitor {
            phase: Phase::Listening,
            round: if self.round + 1 == ROUNDS {
                0
            } else {
                (self.round + 1) as u32
            },
            clock,
        }
    }

    /// The monitor after an event and what it does then, or what is wrong with the block.
    pub open spec fn next(self, event: Event) -> Result<(Monitor, Action), BlockError> {
        match event {
            Event::Block => Ok((Monitor { phase: Phase::Reading, ..self }, Action::KeepAndRead)),
            Event::Lost => Ok((Monitor { phase: Phase::Subscribing, ..self }, Action::Subscribe)),
            Event::Subscribed => Ok((Monitor { phase: Phase::Reading, ..self }, Action::Read)),
            Event::SubscribeFailed => Ok((self, Action::SubscribeAfter { ms: RETRY_MS })),
            Event::Extrinsics(extrinsics) => match self.clock.after(extrinsics@) {
                Ok(clock) => Ok(
                    (
                        self.next_round(clock),
                        Action::Count {
                            tx_count: tx_count(extrinsics@) as u64,
                            end: self.round_end(),
                        },
                    ),
                ),
                Err(e) => Err(e),
            },
            Event::Unreadable => Ok(
                (self.next_round(self.clock), Action::Skip { end: self.round_end() }),
            ),
        }
    }

    /// Whether these events can happen one after the other without an error.
    pub open spec fn accepts_all(self, events: Seq<Event>) -> bool
        decreases events.len(),
    {
        if events.len() == 0 {
            true
        } else {
            let before = self.run(events.drop_last());
            self.accepts_all(events.drop_last()) && before.awaits(events.last()) && before.next(
                events.last(),
            ).is_ok()
        }
    }

    /// The monitor after these events.
    pub open spec fn run(self, events: Seq<Event>) -> Monitor
        decreases events.len(),
    {
        if events.len() == 0 {
            self
        } else {
            self.run(events.drop_last()).next(events.last()).unwrap().0
        }
    }

    /// Number of times that these events make the senders start anew.
    pub open spec fn restarts(self, events: Seq<Event>) -> nat
        decreases events.len(),
    {
        if events.len() == 0 {
            0
        } else {
            self.restarts(events.drop_last()) + match self.run(events.drop_last()).next(
                events.last(),
            ).unwrap().1 {
                Action::Count { tx_count, end } => if end == RoundEnd::Restart {
                    1nat
                } else {
                    0
                },
                Action::Skip { end } => if end == RoundEnd::Restart {
                    1nat
                } else {
                    0
                },
                _ => 0,
            }
        }
    }

    /// Returns a monitor that has seen no block yet.
    pub fn new() -> (monitor: Monitor)
        ensures
            monitor == (Monitor {
                phase: Phase::Listening,
                round: 0,
                clock: BlockClock { timestamp: 0, block_time: 0 },
            }),
            monitor.wf(),
            monitor.clock.wf(),
    {
        Monitor { phase: Phase::Listening, round: 0, clock: BlockClock::new() }
    }

    /// Ends the round that is under way.
    fn end_round(&mut self) -> (end: RoundEnd)
        requires
            old(self).wf(),
        ensures
            end == old(self).round_end(),
            *final(self) == old(self).next_round(old(self).clock),
    {
        self.phase = Phase::Listening;
        if self.round + 1 == ROUNDS {
            self.round = 0;
            RoundEnd::Restart
        } else {
            self.round = self.round + 1;
            RoundEnd::Listen
        }
    }

    /// Takes in what happened, and returns what is done next. An error leaves the monitor as it
    /// was.
    pub fn step(&mut self, event: Event) -> (res: Result<Action, BlockError>)
        requires
            old(self).wf(),
            old(self).awaits(event),
        ensures
            match old(self).next(event) {
                Ok((monitor, action)) => res == Ok::<Action, BlockError>(action) && *final(self)
                    == monitor,
                Err(e) => res == Err::<Action, BlockError>(e) && *final(self) == *old(self),
            },
            final(self).wf(),
            old(self).clock.wf() ==> final(self).clock.wf(),
    {
        match event {
            Event::Block => {
                self.phase = Phase::Reading;
                Ok(Action::KeepAndRead)
            },
            Event::Lost => {
                self.phase = Phase::Subscribing;
                Ok(Action::Subscribe)
            },
            Event::Subscribed => {
                self.phase = Phase::Reading;
                Ok(Action::Read)
            },
            Event::SubscribeFailed => Ok(Action::SubscribeAfter { ms: RETRY_MS }),
            Event::Extrinsics(extrinsics) => match self.clock.record(&extrinsics) {
                Ok(tx_count) => {
                    let end: RoundEnd = self.end_round();
                    Ok(Action::Count { tx_count, end })
                },
                Err(e) => Err(e),
            },
            Event::Unreadable => {
                let end: RoundEnd = self.end_round();
                Ok(Action::Skip { end })
            },
        }
    }
}

/// Number of rounds that these events end.
pub open spec fn rounds_ended(events: Seq<Event>) -> nat {
    events.filter(|event: Event| ends_round(event)).len()
}

/// The senders start anew once in every ten rounds, whether the rounds' blocks could be read or
/// not, and at no other time.
pub proof fn law_restart_every_ten_rounds(monitor: Monitor, events: Seq<Event>)
    requires
        monitor.wf(),
        monitor.accepts_all(events),
    ensures
        monitor.run(events).wf(),
        monitor.round + rounds_ended(events) == ROUNDS * monitor.restarts(events) + monitor.run(
            events,
        ).round,
    decreases events.len(),
{
    reveal(Seq::filter);
    if events.len() > 0 {
        law_restart_every_ten_rounds(monitor, events.drop_last());
    }
}

/// However often a new subscription fails, the next attempt comes, and once one succeeds the
/// block that was kept last is read in the same round, by the same clock.
pub proof fn law_reconnecting_keeps_the_round(monitor: Monitor, failures: Seq<Event>)
    requires
        monitor.awaits(Event::Lost),
        forall|i: int| 0 <= i < failures.len() ==> #[trigger] failures[i] is SubscribeFailed,
    ensures
        ({
            let lost = monitor.next(Event::Lost).unwrap().0;
            let trying = lost.run(failures);
            &&& lost.accepts_all(failures)
            &&& trying == lost
            &&& trying.awaits(Event::Subscribed)
            &&& trying.next(Event::SubscribeFailed) == Ok::<(Monitor, Action), BlockError>(
                (lost, Action::SubscribeAfter { ms: RETRY_MS }),
            )
            &&& trying.next(Event::Subscribed) == Ok::<(Monitor, Action), BlockError>(
                (Monitor { phase: Phase::Reading, ..monitor }, Action::Read),
            )
        }),
    decreases failures.len(),
{
    if failures.len() > 0 {
        let before = failures.drop_last();
        assert forall|i: int| 0 <= i < before.len() implies #[trigger] before[i] is SubscribeFailed by {
            assert(before[i] == failures[i]);
        }
        law_reconnecting_keeps_the_round(monitor, before);
        assert(failures[failures.len() - 1] is SubscribeFailed);
    }
}

/// The chain's time does not run backwards, not even where the senders start anew.
pub proof fn law_restart_keeps_the_clock(monitor: Monitor, events: Seq<Event>)
    requires
        monitor.clock.wf(),
        monitor.accepts_all(events),
    ensures
        monitor.run(events).clock.timestamp >= monitor.clock.timestamp,
        monitor.run(events).clock.wf(),
    decreases events.len(),
{
    if events.len() > 0 {
        law_restart_keeps_the_clock(monitor, events.drop_last());
        let before = monitor.run(events.drop_last());
        match events.last() {
            Event::Extrinsics(extrinsics) => {
                crate::block::law_clock_never_runs_back(before.clock, extrinsics@);
            },
            _ => {},
        }
    }
}

/// Where a block is taken in without an error, the number that is counted is the number of its
/// entries that are transfers by their names, in a block of any size. The round ends with it:
/// the tenth one since the senders were started makes them start anew.
pub proof fn law_all_transfers_are_counted(monitor: Monitor, extrinsics: Vec<Option<Extrinsic>>)
    requires
        monitor.phase == Phase::Reading,
        monitor.round < 10,
    ensures
        ({
            let event = Event::Extrinsics(extrinsics);
            &&& monitor.wf()
            &&& monitor.awaits(event)
            &&& match (monitor.clock.after(extrinsics@), monitor.next(event)) {
                (Ok(clock), Ok((later, action))) => {
                    &&& action matches Action::Count { tx_count, end }
                    &&& tx_count == extrinsics@.filter(
                        |ex: Option<Extrinsic>|
                            ex matches Some(x) && ((x.pallet@ == "Balances"@ && x.variant@
                                == "transfer_keep_alive"@) || (x.pallet@ == "Nfts"@ && x.variant@
                                == "transfer"@)),
                    ).len()
                    &&& end == RoundEnd::Restart <==> monitor.round == 9
                    &&& later.round == (monitor.round + 1) % 10
                    &&& later.phase == Phase::Listening
                    &&& later.clock == clock
                },
                (Err(e), Err(f)) => e == f,
                _ => false,
            }
        }),
{
    law_count_is_number_of_transfers(extrinsics@);
    law_count_at_most_entries(extrinsics@);
    assert(extrinsics@.len() == extrinsics.len());
}

/// Of two blocks that differ in one transfer more, read by the same monitor, the longer one
/// counts one more.
pub proof fn law_one_more_transfer_counts_one_more(
    monitor: Monitor,
    shorter: Vec<Option<Extrinsic>>,
    longer: Vec<Option<Extrinsic>>,
    ex: Extrinsic,
)
    requires
        monitor.clock.after(shorter@).is_ok(),
        longer@ == shorter@.push(Some(ex)),
        (ex.pallet@, ex.variant@) == ("Balances"@, "transfer_keep_alive"@) || (
            ex.pallet@,
            ex.variant@,
        ) == ("Nfts"@, "transfer"@),
    ensures
        ({
            &&& monitor.next(Event::Extrinsics(shorter)) matches Ok((a, Action::Count {
                tx_count: m,
                end: p,
            }))
            &&& monitor.next(Event::Extrinsics(longer)) matches Ok((b, Action::Count {
                tx_count: n,
                end: q,
            }))
            &&& n == m + 1
            &&& a == b
            &&& p == q
        }),
{
    law_each_transfer_counts_once(shorter@, ex);
    law_calls_are_told_by_both_names(ex.pallet@, ex.variant@);
    law_count_at_most_entries(shorter@);
    law_count_at_most_entries(longer@);
    assert(shorter@.len() == shorter.len());
    assert(longer@.len() == longer.len());
    assert(longer@.drop_last() =~= shorter@);
}

/// A block that cannot be read ends its round as any other does, counts nothing, and leaves the
/// clock alone.
pub proof fn law_unreadable_block_is_skipped(monitor: Monitor)
    requires
        monitor.phase == Phase::Reading,
        monitor.round < 10,
    ensures
        monitor.wf(),
        monitor.awaits(Event::Unreadable),
        monitor.next(Event::Unreadable) matches Ok((later, Action::Skip { end })) && {
            &&& end == RoundEnd::Restart <==> monitor.round == 9
            &&& later == (Monitor {
                phase: Phase::Listening,
                round: ((monitor.round + 1) % 10) as u32,
                clock: monitor.clock,
            })
        },
{
}

/// A new block is kept and read; where the subscription is lost, a new one is asked for, after
/// half a second where that fails, and then the block that was kept last is read. None of it
/// changes the round or the clock.
pub proof fn law_round_waits_for_its_block(monitor: Monitor)
    ensures
        monitor.phase == Phase::Listening ==> {
            &&& monitor.awaits(Event::Block)
            &&& monitor.awaits(Event::Lost)
            &&& monitor.next(Event::Block) == Ok::<(Monitor, Action), BlockError>(
                (Monitor { phase: Phase::Reading, ..monitor }, Action::KeepAndRead),
            )
            &&& monitor.next(Event::Lost) == Ok::<(Monitor, Action), BlockError>(
                (Monitor { phase: Phase::Subscribing, ..monitor }, Action::Subscribe),
            )
        },
        monitor.phase == Phase::Subscribing ==> {
            &&& monitor.awaits(Event::Subscribed)
            &&& monitor.awaits(Event::SubscribeFailed)
            &&& monitor.next(Event::Subscribed) == Ok::<(Monitor, Action), BlockError>(
                (Monitor { phase: Phase::Reading, ..monitor }, Action::Read),
            )
            &&& monitor.next(Event::SubscribeFailed) == Ok::<(Monitor, Action), BlockError>(
                (monitor, Action::SubscribeAfter { ms: 500 }),
            )
        },
{
}

} // verus!
